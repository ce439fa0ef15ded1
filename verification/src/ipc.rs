//! Synchronous message passing: the only way two tasks are allowed to
//! cooperate.
//!
//! `send` blocks until the target replies. There is no buffer in the middle:
//! every message in flight is described by two buffers that belong to the two
//! tasks involved, and the kernel copies between them exactly once. Each
//! buffer is checked against its own owner's tables, never against those of
//! whoever happens to be running.
//!
//! Nothing here gives up the CPU. A call that has to wait leaves the caller
//! marked blocked and says so; the caller parks, and collects its outcome on
//! waking.

use vstd::prelude::*;

use crate::frames;
use crate::frames::Frame;
use crate::memory::Memory;
use crate::notify;
use crate::notify::Notifications;
use crate::paging;
use crate::tasks;
use crate::tasks::{Priority, Scheduler, State, Task, TaskId, MAX_TASKS};

verus! {

/// Largest message or reply the kernel will copy in one call. The copy happens
/// with interrupts masked and a task chooses the length.
pub const MAX_MESSAGE: u64 = 256;

/// Largest part of a lease that one borrow may move, for the same reason.
pub const MAX_BORROW: u64 = 4096;

/// Regions one message may lend.
pub const MAX_LEASES: u64 = 4;

/// Bytes one lease takes in the table a sender passes: base, length, and
/// permission bits, a word each.
pub const LEASE_BYTES: u64 = 24;

/// Permission bit of a lease: the receiver may read.
pub const LEASE_READ: u64 = 1;

/// Permission bit of a lease: the receiver may write.
pub const LEASE_WRITE: u64 = 2;

/// A request that makes no sense.
pub const EINVAL: u64 = 0xffff_ffff_ffff_ffff;

/// Memory the caller, or its correspondent, may not touch that way.
pub const EFAULT: u64 = 0xffff_ffff_ffff_fffe;

/// The other end is gone, or was never there.
pub const EDEAD: u64 = 0xffff_ffff_ffff_fffd;

/// Who a notification is from: no task.
pub const KERNEL: u64 = 8;

/// One half of a rendezvous, from the sender's side.
#[derive(Clone, Copy, PartialEq, Eq, Debug, Structural)]
pub struct Message {
    pub target: usize,
    pub operation: u64,
    /// Outgoing bytes, in the sender's address space.
    pub out: u64,
    pub out_len: u64,
    /// Where the reply goes, in the sender's address space.
    pub reply_buf: u64,
    pub reply_cap: u64,
}

/// What a blocked task is blocked on.
#[derive(Clone, Copy, PartialEq, Eq, Debug, Structural)]
pub enum Pending {
    /// Sent, nobody has picked it up yet.
    SendWait(Message),
    /// Picked up and being worked on. Waiting for `reply`.
    ReplyWait(Message),
    /// Waiting for somebody to send. The buffer is in the receiver's space.
    RecvWait { buf: u64, cap: u64 },
}

/// What a task found waiting for it when it woke up.
#[derive(Clone, Copy, PartialEq, Eq, Debug, Structural)]
pub struct Outcome {
    pub a: u64,
    pub b: u64,
    pub c: u64,
}

/// A region of a sender's memory, lent with a message.
#[derive(Clone, Copy, PartialEq, Eq, Debug, Structural)]
pub struct Lease {
    pub base: u64,
    pub len: u64,
    pub readable: bool,
    pub writable: bool,
}

/// Every conversation in progress, one slot per task.
#[derive(Debug)]
pub struct Table {
    pub pending: Vec<Option<Pending>>,
    pub outcome: Vec<Outcome>,
    /// What each task has lent with the message it is blocked on.
    pub leases: Vec<Vec<Lease>>,
}

/// A message that was accepted: bounded, and not to its own sender.
pub open spec fn message_ok(message: Message, sender: int) -> bool {
    &&& message.target < MAX_TASKS
    &&& message.target != sender
    &&& message.out_len <= MAX_MESSAGE
    &&& message.reply_cap <= MAX_MESSAGE
}

/// What a task is blocked on makes sense.
pub open spec fn pending_ok(pending: Option<Pending>, slot: int) -> bool {
    match pending {
        Some(Pending::SendWait(message)) => message_ok(message, slot),
        Some(Pending::ReplyWait(message)) => message_ok(message, slot),
        Some(Pending::RecvWait { buf, cap }) => cap <= MAX_MESSAGE,
        None => true,
    }
}

impl Table {
    /// A slot for each task, each of them sensible.
    pub open spec fn wf(&self) -> bool {
        &&& self.pending@.len() == MAX_TASKS
        &&& self.outcome@.len() == MAX_TASKS
        &&& self.leases@.len() == MAX_TASKS
        &&& forall|i: int| 0 <= i < MAX_TASKS ==> pending_ok(#[trigger] self.pending@[i], i)
        &&& forall|i: int, j: int|
            0 <= i < MAX_TASKS && 0 <= j < self.leases@[i]@.len() ==> (
            #[trigger] self.leases@[i]@[j]).base + self.leases@[i]@[j].len <= u64::MAX
    }

    /// Nobody waiting for anybody.
    pub fn new() -> (t: Table)
        ensures
            t.wf(),
            t.pending@ == Seq::new(8, |i: int| None::<Pending>),
            t.outcome@ == Seq::new(8, |i: int| (Outcome { a: 0, b: 0, c: 0 })),
            forall|i: int| 0 <= i < 8 ==> (#[trigger] t.leases@[i])@.len() == 0,
    {
        let mut pending: Vec<Option<Pending>> = Vec::new();
        let mut outcome: Vec<Outcome> = Vec::new();
        let mut leases: Vec<Vec<Lease>> = Vec::new();
        let mut i: usize = 0;
        while i < MAX_TASKS
            invariant
                i <= MAX_TASKS,
                pending@ == Seq::new(i as nat, |i: int| None::<Pending>),
                outcome@ == Seq::new(i as nat, |i: int| (Outcome { a: 0, b: 0, c: 0 })),
                leases@.len() == i,
                forall|j: int| 0 <= j < i ==> (#[trigger] leases@[j])@.len() == 0,
            decreases MAX_TASKS - i,
        {
            pending.push(None);
            outcome.push(Outcome { a: 0, b: 0, c: 0 });
            leases.push(Vec::new());
            i += 1;
        }
        Table { pending, outcome, leases }
    }
}

// ---------------------------------------------------------------------------
// Moving bytes between tasks.
// ---------------------------------------------------------------------------

/// The smaller of two lengths.
pub open spec fn least(a: u64, b: u64) -> u64 {
    if a < b {
        a
    } else {
        b
    }
}

/// Root of the address space of the task in slot `i`, as a frame address.
pub open spec fn root_at(tasks: Seq<Option<Task>>, i: int) -> int {
    (tasks::root_of(tasks, i)->0).0 as int
}

/// A body of `len` bytes can go from one task to another: each side has an
/// address space, and each buffer passes its own owner's tables.
pub open spec fn deliverable(
    m: Memory,
    tasks: Seq<Option<Task>>,
    src: int,
    src_buf: u64,
    dst: int,
    dst_buf: u64,
    len: u64,
) -> bool {
    len == 0 || {
        &&& tasks::root_of(tasks, src) is Some
        &&& tasks::root_of(tasks, dst) is Some
        &&& paging::user_may(m, root_at(tasks, src), src_buf, len, false)
        &&& paging::user_may(m, root_at(tasks, dst), dst_buf, len, true)
    }
}

/// The body has been copied, and nothing else has changed.
pub open spec fn delivered(
    m1: Memory,
    m2: Memory,
    tasks: Seq<Option<Task>>,
    src: int,
    src_buf: u64,
    dst: int,
    dst_buf: u64,
    len: u64,
) -> bool {
    if len == 0 {
        m2 == m1
    } else {
        paging::copied(
            m1,
            m2,
            root_at(tasks, src),
            src_buf,
            root_at(tasks, dst),
            dst_buf,
            len as int,
        )
    }
}

/// Two tasks' memory is apart, so a copy between them is well defined.
proof fn lemma_apart(
    m: Memory,
    tasks: Seq<Option<Task>>,
    src: int,
    src_va: u64,
    dst: int,
    dst_va: u64,
    len: int,
)
    requires
        tasks::isolated(m, tasks),
        src != dst,
        tasks::root_of(tasks, src) is Some,
        tasks::root_of(tasks, dst) is Some,
        0 <= len < 0x100_0000_0000,
        src_va + len <= u64::MAX,
        dst_va + len <= u64::MAX,
    ensures
        paging::tree(m, root_at(tasks, src), 0),
        paging::tree(m, root_at(tasks, dst), 0),
        paging::copy_apart(m, root_at(tasks, src), src_va, root_at(tasks, dst), dst_va, len),
{
    let (s, d) = (root_at(tasks, src), root_at(tasks, dst));
    let (one, two) = (tasks[src], tasks[dst]);
    assert(tasks::sound_task(m, one));
    assert(tasks::sound_task(m, two));
    let (from, to) = (tasks::claim(m, one), tasks::claim(m, two));
    assert(from.disjoint(to));
    assert forall|k: int| 0 <= k < len implies match #[trigger] paging::byte_of(m, s, src_va, k) {
        Some(pa) => m.has(pa, 1) && from.contains(frames::round_down(pa)),
        None => true,
    } by {
        paging::lemma_leaf_frame(m, s, (src_va + k) as u64, 0);
        match paging::byte_of(m, s, src_va, k) {
            Some(pa) => {
                assert(from.contains(frames::round_down(pa)));
            },
            None => {},
        }
    }
    assert forall|k: int| 0 <= k < len implies match #[trigger] paging::byte_of(m, d, dst_va, k) {
        Some(pa) => {
            &&& m.has(pa, 1)
            &&& to.contains(frames::round_down(pa))
            &&& !paging::tables(m, s, 0).contains(frames::round_down(pa))
            &&& !paging::tables(m, d, 0).contains(frames::round_down(pa))
        },
        None => true,
    } by {
        paging::lemma_leaf_frame(m, d, (dst_va + k) as u64, 0);
        match paging::byte_of(m, d, dst_va, k) {
            Some(pa) => {
                let f = frames::round_down(pa);
                assert(paging::leaves(m, d, 0).contains(f));
                assert(to.contains(f));
                if paging::tables(m, s, 0).contains(f) {
                    assert(from.contains(f));
                }
            },
            None => {},
        }
    }
    assert forall|j: int, k: int|
        0 <= j < k < len implies match (
        #[trigger] paging::byte_of(m, d, dst_va, j),
        #[trigger] paging::byte_of(m, d, dst_va, k),
    ) {
        (Some(one), Some(two)) => one != two,
        _ => true,
    } by {
        if paging::byte_of(m, d, dst_va, j) is Some && paging::byte_of(m, d, dst_va, k) is Some {
            paging::lemma_bytes_distinct(m, d, dst_va, j, k);
        }
    }
}

/// What EL0 may touch is mapped.
pub proof fn lemma_mapped(m: Memory, root: int, va: u64, len: u64, write: bool)
    requires
        paging::private(m, root, 0),
        len > 0,
        paging::user_may(m, root, va, len, write),
    ensures
        forall|k: int| 0 <= k < len ==> #[trigger] paging::byte_of(m, root, va, k) is Some,
{
    assert forall|k: int| 0 <= k < len implies #[trigger] paging::byte_of(m, root, va, k) is Some by {
        let v = (va + k) as u64;
        assert(paging::permits(paging::stop(m, root, v, 0), write));
        paging::lemma_leaf_frame(m, root, v, 0);
    }
}

/// A copy between two tasks leaves everybody's tables alone.
proof fn lemma_copy_isolated(
    m1: Memory,
    m2: Memory,
    tasks: Seq<Option<Task>>,
    src: int,
    src_va: u64,
    dst: int,
    dst_va: u64,
    len: int,
)
    requires
        tasks::isolated(m1, tasks),
        tasks::root_of(tasks, dst) is Some,
        0 <= len,
        dst_va + len <= u64::MAX,
        paging::copied(
            m1,
            m2,
            root_at(tasks, src),
            src_va,
            root_at(tasks, dst),
            dst_va,
            len,
        ),
    ensures
        tasks::isolated(m2, tasks),
        paging::changed_within(m1, m2, tasks::data_frames(m1, tasks, dst)),
        forall|i: int|
            0 <= i < tasks.len() ==> tasks::claim(m2, #[trigger] tasks[i]) == tasks::claim(
                m1,
                tasks[i],
            ),
        forall|i: int, va: u64|
            0 <= i < tasks.len() && (#[trigger] tasks[i]) is Some && tasks[i]->0.space is Some
                ==> #[trigger] paging::stop(m2, tasks[i]->0.space->0.root.0 as int, va, 0)
                == paging::stop(m1, tasks[i]->0.space->0.root.0 as int, va, 0),
{
    let d = root_at(tasks, dst);
    let data = tasks::data_frames(m1, tasks, dst);
    assert(tasks::sound_task(m1, tasks[dst]));
    assert(paging::changed_within(m1, m2, data)) by {
        assert forall|pa: int|
            m1.has(pa, 1) && !data.contains(frames::round_down(pa)) implies #[trigger] m2.byte_at(
            pa,
        ) == m1.byte_at(pa) by {
            assert forall|k: int| 0 <= k < len implies #[trigger] paging::byte_of(
                m1,
                d,
                dst_va,
                k,
            ) != Some(pa) by {
                paging::lemma_leaf_frame(m1, d, (dst_va + k) as u64, 0);
            }
        }
    }
    assert forall|i: int|
        0 <= i < tasks.len() && (#[trigger] tasks[i]) is Some && tasks[i]->0.space is Some implies
        data.disjoint(paging::tables(m1, tasks[i]->0.space->0.root.0 as int, 0)) by {
        assert(tasks::sound_task(m1, tasks[i]));
        if i != dst {
            assert(tasks::claim(m1, tasks[i]).disjoint(tasks::claim(m1, tasks[dst])));
            assert forall|q: int| data.contains(q) implies !paging::tables(
                m1,
                tasks[i]->0.space->0.root.0 as int,
                0,
            ).contains(q) by {
                assert(tasks::claim(m1, tasks[dst]).contains(q));
                if paging::tables(m1, tasks[i]->0.space->0.root.0 as int, 0).contains(q) {
                    assert(tasks::claim(m1, tasks[i]).contains(q));
                }
            }
        }
    }
    tasks::lemma_isolated_memory(m1, m2, tasks, data);
}

/// Copy a message body from one task to another, capped at what the
/// destination said it could hold.
///
/// Truncation rather than refusal: a sender should not be able to fail a
/// receiver's call by being verbose. The returned length is what arrived.
fn deliver(
    memory: &mut Memory,
    s: &Scheduler,
    src: TaskId,
    src_buf: u64,
    src_len: u64,
    dst: TaskId,
    dst_buf: u64,
    dst_cap: u64,
) -> (r: Option<u64>)
    requires
        old(memory).wf(),
        s.wf(),
        tasks::isolated(*old(memory), s.tasks@),
        src.0 != dst.0,
        src_len <= MAX_MESSAGE || dst_cap <= MAX_MESSAGE,
    ensures
        final(memory).wf(),
        tasks::isolated(*final(memory), s.tasks@),
        ({
            let len = least(src_len, dst_cap);
            if deliverable(
                *old(memory),
                s.tasks@,
                src.0 as int,
                src_buf,
                dst.0 as int,
                dst_buf,
                len,
            ) {
                &&& r == Some(len)
                &&& delivered(
                    *old(memory),
                    *final(memory),
                    s.tasks@,
                    src.0 as int,
                    src_buf,
                    dst.0 as int,
                    dst_buf,
                    len,
                )
            } else {
                r is None && *final(memory) == *old(memory)
            }
        }),
        paging::changed_within(
            *old(memory),
            *final(memory),
            tasks::data_frames(*old(memory), s.tasks@, dst.0 as int),
        ),
{
    let len: u64 = if src_len < dst_cap {
        src_len
    } else {
        dst_cap
    };
    if len == 0 {
        return Some(0);
    }
    let src_root: Frame = match tasks::space_root_of(s, src) {
        Some(root) => root,
        None => {
            return None;
        },
    };
    let dst_root: Frame = match tasks::space_root_of(s, dst) {
        Some(root) => root,
        None => {
            return None;
        },
    };
    let ghost m0 = *memory;
    let ghost all = s.tasks@;
    proof {
        assert(tasks::sound_task(m0, all[src.0 as int]));
        assert(tasks::sound_task(m0, all[dst.0 as int]));
        paging::lemma_sound(m0, src_root.0 as int);
        paging::lemma_sound(m0, dst_root.0 as int);
    }
    // Each side against its own owner's tables. This is the line that keeps a
    // receiver from naming an address and having it treated as the sender's.
    if !paging::user_readable(memory, src_root, src_buf, len) {
        return None;
    }
    if !paging::user_writable(memory, dst_root, dst_buf, len) {
        return None;
    }
    proof {
        lemma_apart(m0, all, src.0 as int, src_buf, dst.0 as int, dst_buf, len as int);
        lemma_mapped(m0, src_root.0 as int, src_buf, len, false);
        lemma_mapped(m0, dst_root.0 as int, dst_buf, len, true);
    }
    if paging::copy_across(memory, src_root, src_buf, dst_root, dst_buf, len) {
        proof {
            lemma_copy_isolated(
                m0,
                *memory,
                all,
                src.0 as int,
                src_buf,
                dst.0 as int,
                dst_buf,
                len as int,
            );
        }
        Some(len)
    } else {
        None
    }
}

// ---------------------------------------------------------------------------
// Waking senders.
// ---------------------------------------------------------------------------

/// Is a task blocked on `target`?
pub open spec fn waits_on(pending: Option<Pending>, target: int) -> bool {
    match pending {
        Some(Pending::SendWait(message)) => message.target == target,
        Some(Pending::ReplyWait(message)) => message.target == target,
        _ => false,
    }
}

/// Hand a blocked sender its result and put it back in the running. Returns
/// whether it outranks the caller.
///
/// `pending` is cleared here, by the waker, and not later by the sender: the
/// moment an outcome is written the sender is waiting for nothing.
fn finish_sender(t: &mut Table, s: &mut Scheduler, sender: TaskId, rc: u64, len: u64) -> (r: bool)
    requires
        old(t).wf(),
        old(s).wf(),
        sender.0 < MAX_TASKS,
    ensures
        final(t).wf(),
        final(s).wf(),
        final(t).pending@ == old(t).pending@.update(sender.0 as int, None),
        final(t).outcome@ == old(t).outcome@.update(
            sender.0 as int,
            Outcome { a: rc, b: len, c: 0 },
        ),
        final(t).leases == old(t).leases,
        final(s).same_rest(old(s)),
        final(s).tasks@ == tasks::woken_table(old(s).tasks@, sender.0 as int),
        r == tasks::wakes_above(old(s).tasks@, old(s).current as int, sender.0 as int),
{
    t.outcome[sender.0] = Outcome { a: rc, b: len, c: 0 };
    t.pending[sender.0] = None;
    tasks::unblock_deferred(s, sender)
}

/// The conversations once `gone` has stopped for good, slots below `n` done.
pub open spec fn abandoned_pending(
    pending: Seq<Option<Pending>>,
    gone: int,
    n: int,
) -> Seq<Option<Pending>> {
    Seq::new(
        pending.len(),
        |i: int|
            if i < n && i != gone && waits_on(pending[i], gone) {
                None
            } else {
                pending[i]
            },
    )
}

/// The outcomes once `gone` has stopped for good, slots below `n` done.
pub open spec fn abandoned_outcome(
    pending: Seq<Option<Pending>>,
    outcome: Seq<Outcome>,
    gone: int,
    n: int,
) -> Seq<Outcome> {
    Seq::new(
        outcome.len(),
        |i: int|
            if i < n && i != gone && waits_on(pending[i], gone) {
                Outcome { a: EDEAD, b: 0, c: 0 }
            } else {
                outcome[i]
            },
    )
}

/// The task table once everybody waiting on `gone` has been woken, slots below
/// `n` done.
pub open spec fn abandoned_tasks(
    pending: Seq<Option<Pending>>,
    tasks: Seq<Option<Task>>,
    gone: int,
    n: int,
) -> Seq<Option<Task>> {
    Seq::new(
        tasks.len(),
        |i: int|
            if i < n && i != gone && waits_on(pending[i], gone) && tasks::in_state(
                tasks,
                i,
                State::Blocked,
            ) {
                Some(Task { state: State::Runnable, ..tasks[i]->0 })
            } else {
                tasks[i]
            },
    )
}

/// What `gone` leaves behind in the conversations: everybody who was waiting
/// on it is told, and it waits for nothing any more.
pub open spec fn left(before: &Table, after: &Table, gone: int) -> bool {
    &&& after.pending@ == abandoned_pending(before.pending@, gone, 8).update(gone, None)
    &&& after.outcome@ == abandoned_outcome(before.pending@, before.outcome@, gone, 8)
    &&& after.leases == before.leases
}

/// Release anybody stuck on a task that has stopped for good.
///
/// Wakes without giving up the CPU: a task on its way out has more than one
/// thing left to do, and the first switch it makes is its last.
pub fn abandon(t: &mut Table, s: &mut Scheduler, gone: TaskId)
    requires
        old(t).wf(),
        old(s).wf(),
        gone.0 < MAX_TASKS,
    ensures
        final(t).wf(),
        final(s).wf(),
        final(s).same_rest(old(s)),
        left(old(t), final(t), gone.0 as int),
        final(s).tasks@ == abandoned_tasks(old(t).pending@, old(s).tasks@, gone.0 as int, 8),
{
    let ghost p0 = t.pending@;
    let ghost o0 = t.outcome@;
    let ghost all = s.tasks@;
    let ghost g = gone.0 as int;
    proof {
        assert(t.pending@ =~= abandoned_pending(p0, g, 0));
        assert(t.outcome@ =~= abandoned_outcome(p0, o0, g, 0));
        assert(s.tasks@ =~= abandoned_tasks(p0, all, g, 0));
    }
    let mut slot: usize = 0;
    while slot < MAX_TASKS
        invariant
            t.wf(),
            s.wf(),
            old(t).wf(),
            old(s).wf(),
            slot <= MAX_TASKS,
            gone.0 < MAX_TASKS,
            g == gone.0,
            p0 == old(t).pending@,
            o0 == old(t).outcome@,
            all == old(s).tasks@,
            s.same_rest(old(s)),
            t.leases == old(t).leases,
            t.pending@ == abandoned_pending(p0, g, slot as int),
            t.outcome@ == abandoned_outcome(p0, o0, g, slot as int),
            s.tasks@ == abandoned_tasks(p0, all, g, slot as int),
        decreases MAX_TASKS - slot,
    {
        if slot != gone.0 {
            let waiting: bool = match t.pending[slot] {
                Some(Pending::SendWait(message)) => message.target == gone.0,
                Some(Pending::ReplyWait(message)) => message.target == gone.0,
                _ => false,
            };
            if waiting {
                let _ = finish_sender(t, s, TaskId(slot), EDEAD, 0);
            }
        }
        proof {
            assert(t.pending@ =~= abandoned_pending(p0, g, slot + 1));
            assert(t.outcome@ =~= abandoned_outcome(p0, o0, g, slot + 1));
            assert(s.tasks@ =~= abandoned_tasks(p0, all, g, slot + 1));
        }
        slot += 1;
    }
    // Whatever the departing task was itself waiting on is no longer anybody's
    // business.
    t.pending[gone.0] = None;
}

/// Has the task's message been picked up, and not answered yet?
pub fn is_awaiting_reply(t: &Table, id: TaskId) -> (r: bool)
    requires
        t.wf(),
    ensures
        r == (id.0 < MAX_TASKS && t.pending@[id.0 as int] is Some && t.pending@[id.0 as int]->0
            is ReplyWait),
{
    if id.0 >= MAX_TASKS {
        return false;
    }
    match t.pending[id.0] {
        Some(Pending::ReplyWait(message)) => true,
        _ => false,
    }
}

/// Is slot `i` waiting to send to `target`?
pub open spec fn sends_to(
    pending: Seq<Option<Pending>>,
    tasks: Seq<Option<Task>>,
    i: int,
    target: int,
) -> bool {
    &&& 0 <= i < pending.len()
    &&& 0 <= i < tasks.len()
    &&& tasks[i] is Some
    &&& match pending[i] {
        Some(Pending::SendWait(message)) => message.target == target,
        _ => false,
    }
}

/// The sender that is served first: highest priority, and among equals the
/// lower slot.
pub open spec fn is_best_sender(
    pending: Seq<Option<Pending>>,
    tasks: Seq<Option<Task>>,
    i: int,
    target: int,
) -> bool {
    &&& sends_to(pending, tasks, i, target)
    &&& forall|j: int|
        #![trigger sends_to(pending, tasks, j, target)]
        sends_to(pending, tasks, j, target) && j != i ==> {
            let (p, q) = (tasks[i]->0.priority, tasks[j]->0.priority);
            p.above(q) || p == q && i < j
        }
}

/// The highest priority task currently waiting to send to `target`.
///
/// Priority order here is what stops a busy low priority client from delaying
/// an urgent one that arrived while it was queued.
fn best_sender(t: &Table, s: &Scheduler, target: TaskId) -> (r: Option<TaskId>)
    requires
        t.wf(),
        s.wf(),
    ensures
        match r {
            Some(id) => is_best_sender(t.pending@, s.tasks@, id.0 as int, target.0 as int),
            None => forall|j: int|
                !#[trigger] sends_to(t.pending@, s.tasks@, j, target.0 as int),
        },
{
    let ghost pending = t.pending@;
    let ghost all = s.tasks@;
    let ghost to = target.0 as int;
    let mut best: Option<(TaskId, Priority)> = None;
    let mut slot: usize = 0;
    while slot < MAX_TASKS
        invariant
            t.wf(),
            s.wf(),
            slot <= MAX_TASKS,
            pending == t.pending@,
            all == s.tasks@,
            to == target.0,
            match best {
                Some((id, priority)) => {
                    &&& id.0 < slot
                    &&& sends_to(pending, all, id.0 as int, to)
                    &&& all[id.0 as int]->0.priority == priority
                    &&& forall|j: int|
                        #![trigger sends_to(pending, all, j, to)]
                        sends_to(pending, all, j, to) && j < slot && j != id.0 ==> {
                            let q = all[j]->0.priority;
                            priority.above(q) || priority == q && id.0 < j
                        }
                },
                None => forall|j: int| j < slot ==> !#[trigger] sends_to(pending, all, j, to),
            },
        decreases MAX_TASKS - slot,
    {
        let sending: bool = match t.pending[slot] {
            Some(Pending::SendWait(message)) => message.target == target.0,
            _ => false,
        };
        if sending {
            match tasks::priority_of(s, TaskId(slot)) {
                Some(priority) => {
                    assert(sends_to(pending, all, slot as int, to));
                    match best {
                        Some((id, best_priority)) => {
                            if priority.outranks(best_priority) {
                                best = Some((TaskId(slot), priority));
                            }
                        },
                        None => {
                            best = Some((TaskId(slot), priority));
                        },
                    }
                },
                None => {},
            }
        }
        slot += 1;
    }
    match best {
        Some((id, priority)) => Some(id),
        None => None,
    }
}

/// Take what a woken task found waiting for it.
pub fn collect(t: &mut Table, me: TaskId) -> (r: Outcome)
    requires
        old(t).wf(),
        me.0 < MAX_TASKS,
    ensures
        final(t).wf(),
        final(t).pending == old(t).pending,
        final(t).leases == old(t).leases,
        r == old(t).outcome@[me.0 as int],
        final(t).outcome@ == old(t).outcome@.update(me.0 as int, Outcome { a: 0, b: 0, c: 0 }),
{
    let outcome = t.outcome[me.0];
    t.outcome[me.0] = Outcome { a: 0, b: 0, c: 0 };
    outcome
}

// ---------------------------------------------------------------------------
// Leases.
// ---------------------------------------------------------------------------

/// The bytes of an address space from `va`.
pub open spec fn user_bytes(m: Memory, root: int, va: u64, len: int) -> Seq<u8> {
    Seq::new(len as nat, |k: int| m.byte_at(paging::byte_of(m, root, va, k)->0))
}

/// The little endian word at `at`.
#[verifier::opaque]
pub open spec fn word_at(b: Seq<u8>, at: int) -> u64 {
    (b[at] + 0x100 * b[at + 1] + 0x1_0000 * b[at + 2] + 0x100_0000 * b[at + 3] + 0x1_0000_0000
        * b[at + 4] + 0x100_0000_0000 * b[at + 5] + 0x1_0000_0000_0000 * b[at + 6]
        + 0x100_0000_0000_0000 * b[at + 7]) as u64
}

/// The lease that entry `i` of a lease table describes.
pub open spec fn lease_at(b: Seq<u8>, i: int) -> Lease {
    let flags = word_at(b, 24 * i + 16);
    Lease {
        base: word_at(b, 24 * i),
        len: word_at(b, 24 * i + 8),
        readable: flags % 2 == 1,
        writable: flags / 2 % 2 == 1,
    }
}

/// A task may lend what it could touch itself, and only that way.
pub open spec fn may_lend(m: Memory, root: int, lease: Lease) -> bool {
    &&& paging::user_may(m, root, lease.base, lease.len, false)
    &&& lease.writable ==> paging::user_may(m, root, lease.base, lease.len, true)
}

fn read_word(b: &Vec<u8>, at: usize) -> (r: u64)
    requires
        at + 8 <= b@.len(),
    ensures
        r == word_at(b@, at as int),
{
    reveal(word_at);
    let size: usize = b.len();
    let low: u64 = b[at] as u64 + 0x100 * (b[at + 1] as u64) + 0x1_0000 * (b[at + 2] as u64)
        + 0x100_0000 * (b[at + 3] as u64);
    let high: u64 = b[at + 4] as u64 + 0x100 * (b[at + 5] as u64) + 0x1_0000 * (b[at + 6] as u64)
        + 0x100_0000 * (b[at + 7] as u64);
    low + 0x1_0000_0000 * high
}

/// Read a sender's lease table and check each lease against the sender's own
/// tables. `None` if the sender may not read the table, or may not lend what
/// it describes.
///
/// Checked here and never again: a lease lives only while its owner is blocked
/// on the send that carried it, so nothing can change underneath it.
fn read_leases(
    memory: &Memory,
    root: Frame,
    table: u64,
    count: u64,
) -> (r: Option<Vec<Lease>>)
    requires
        memory.wf(),
        paging::tree(*memory, root.0 as int, 0),
        paging::private(*memory, root.0 as int, 0),
        forall|q: int| #[trigger]
            paging::leaves(*memory, root.0 as int, 0).contains(q) ==> memory.has(q, 4096),
        count <= MAX_LEASES,
    ensures
        ({
            let bytes = user_bytes(*memory, root.0 as int, table, 24 * count);
            if paging::user_may(*memory, root.0 as int, table, (24 * count) as u64, false) && (
            forall|i: int|
                0 <= i < count ==> may_lend(*memory, root.0 as int, #[trigger] lease_at(bytes, i))) {
                r matches Some(v) && v@ == Seq::new(count as nat, |i: int| lease_at(bytes, i))
            } else {
                r is None
            }
        }),
        match r {
            Some(v) => forall|i: int|
                0 <= i < v@.len() ==> (#[trigger] v@[i]).base + v@[i].len <= u64::MAX,
            None => true,
        },
{
    let ghost m = *memory;
    let ghost root_at = root.0 as int;
    let size: u64 = count * LEASE_BYTES;
    proof {
        paging::lemma_sound(m, root_at);
    }
    if !paging::user_readable(memory, root, table, size) {
        return None;
    }
    let mut leases: Vec<Lease> = Vec::new();
    if count == 0 {
        assert(leases@ =~= Seq::new(
            0,
            |i: int| lease_at(user_bytes(m, root_at, table, 24 * count), i),
        ));
        return Some(leases);
    }
    proof {
        lemma_mapped(m, root_at, table, size, false);
        assert forall|k: int| 0 <= k < size implies match #[trigger] paging::byte_of(
            m,
            root_at,
            table,
            k,
        ) {
            Some(pa) => m.has(pa, 1),
            None => false,
        } by {
            paging::lemma_leaf_frame(m, root_at, (table + k) as u64, 0);
        }
    }
    let bytes: Vec<u8> = paging::read_user(memory, root, table, size as usize);
    let ghost all = user_bytes(m, root_at, table, 24 * count);
    assert(bytes@ =~= all);
    let mut i: usize = 0;
    while i < count as usize
        invariant
            i <= count <= MAX_LEASES,
            m == *memory,
            root_at == root.0,
            memory.wf(),
            paging::sound(m, root_at),
            bytes@ == all,
            all.len() == 24 * count,
            all == user_bytes(m, root_at, table, 24 * count),
            paging::user_may(m, root_at, table, (24 * count) as u64, false),
            leases@ == Seq::new(i as nat, |i: int| lease_at(all, i)),
            forall|j: int| 0 <= j < i ==> may_lend(m, root_at, #[trigger] lease_at(all, j)),
        decreases count - i,
    {
        let base: u64 = read_word(&bytes, 24 * i);
        let len: u64 = read_word(&bytes, 24 * i + 8);
        let flags: u64 = read_word(&bytes, 24 * i + 16);
        let lease = Lease { base, len, readable: flags % 2 == 1, writable: flags / 2 % 2 == 1 };
        assert(lease == lease_at(all, i as int));
        if !paging::user_readable(memory, root, base, len) {
            assert(!may_lend(m, root_at, lease_at(all, i as int)));
            return None;
        }
        if lease.writable && !paging::user_writable(memory, root, base, len) {
            assert(!may_lend(m, root_at, lease_at(all, i as int)));
            return None;
        }
        leases.push(lease);
        i += 1;
        assert(leases@ =~= Seq::new(i as nat, |i: int| lease_at(all, i)));
    }
    assert forall|j: int| 0 <= j < leases@.len() implies (#[trigger] leases@[j]).base
        + leases@[j].len <= u64::MAX by {
        assert(may_lend(m, root_at, lease_at(all, j)));
    }
    Some(leases)
}

// ---------------------------------------------------------------------------
// Sending.
// ---------------------------------------------------------------------------

/// What became of a send.
#[derive(Clone, Copy, PartialEq, Eq, Debug, Structural)]
pub enum Sent {
    /// Refused: this is the answer.
    Done { rc: u64, len: u64 },
    /// Under way. Park, and collect the outcome on waking.
    Wait,
}

/// Can the task be sent to?
pub open spec fn alive(tasks: Seq<Option<Task>>, i: int) -> bool {
    tasks::in_state(tasks, i, State::Runnable) || tasks::in_state(tasks, i, State::Blocked)
}

/// Why a send is refused out of hand, if it is.
pub open spec fn send_error(
    m: Memory,
    tasks: Seq<Option<Task>>,
    me: int,
    target: u64,
    out: u64,
    out_len: u64,
    reply_buf: u64,
    reply_cap: u64,
    lease_table: u64,
    lease_count: u64,
) -> Option<u64> {
    let root = root_at(tasks, me);
    let leases = user_bytes(m, root, lease_table, 24 * lease_count);
    if out_len > MAX_MESSAGE || reply_cap > MAX_MESSAGE || lease_count > MAX_LEASES {
        Some(EINVAL)
    } else if target >= MAX_TASKS || target == me {
        Some(EINVAL)
    } else if !alive(tasks, target as int) {
        Some(EDEAD)
    } else if tasks::root_of(tasks, me) is None {
        Some(EFAULT)
    } else if !paging::user_may(m, root, out, out_len, false) || !paging::user_may(
        m,
        root,
        reply_buf,
        reply_cap,
        true,
    ) {
        Some(EFAULT)
    } else if !paging::user_may(m, root, lease_table, (24 * lease_count) as u64, false) {
        Some(EFAULT)
    } else if exists|i: int|
        0 <= i < lease_count && !may_lend(m, root, #[trigger] lease_at(leases, i)) {
        Some(EFAULT)
    } else {
        None
    }
}

/// What sending does, and what it returns.
pub open spec fn send_effect(
    t1: &Table,
    s1: &Scheduler,
    m1: &Memory,
    target: u64,
    operation: u64,
    out: u64,
    out_len: u64,
    reply_buf: u64,
    reply_cap: u64,
    lease_table: u64,
    lease_count: u64,
    t2: &Table,
    s2: &Scheduler,
    m2: &Memory,
    r: Sent,
) -> bool {
    let me = s1.current as int;
    let all = s1.tasks@;
    let m = *m1;
    let to = target as int;
    let refused = send_error(
        m,
        all,
        me,
        target,
        out,
        out_len,
        reply_buf,
        reply_cap,
        lease_table,
        lease_count,
    );
    let message = Message {
        target: target as usize,
        operation,
        out,
        out_len,
        reply_buf,
        reply_cap,
    };
    let nothing = {
        &&& *t2 == *t1
        &&& *s2 == *s1
        &&& *m2 == *m1
    };
    let lent = {
        &&& forall|i: int|
            0 <= i < 8 && i != me ==> #[trigger] t2.leases@[i] == t1.leases@[i]
        &&& t2.leases@[me]@ == Seq::new(
            lease_count as nat,
            |i: int|
                lease_at(
                    user_bytes(m, root_at(all, me), lease_table, 24 * lease_count),
                    i,
                ),
        )
    };
    match refused {
        Some(rc) => r == (Sent::Done { rc, len: 0 }) && nothing,
        None => match t1.pending@[to] {
            Some(Pending::RecvWait { buf, cap }) => {
                let len = least(out_len, cap);
                if deliverable(m, all, me, out, to, buf, len) {
                    &&& r == Sent::Wait
                    &&& lent
                    &&& delivered(m, *m2, all, me, out, to, buf, len)
                    &&& t2.pending@ == t1.pending@.update(to, None).update(
                        me,
                        Some(Pending::ReplyWait(message)),
                    )
                    &&& t2.outcome@ == t1.outcome@.update(
                        to,
                        Outcome { a: me as u64, b: operation, c: len },
                    )
                    &&& s2.tasks@ == tasks::woken_table(
                        tasks::blocked_table(all, me),
                        to,
                    )
                } else {
                    r == (Sent::Done { rc: EFAULT, len: 0 }) && nothing
                }
            },
            _ => {
                &&& r == Sent::Wait
                &&& lent
                &&& *m2 == m
                &&& t2.pending@ == t1.pending@.update(
                    me,
                    Some(Pending::SendWait(message)),
                )
                &&& t2.outcome == t1.outcome
                &&& s2.tasks@ == tasks::blocked_table(all, me)
            },
        },
    }
}

/// Send a message to `target`, to be answered into `reply_buf`, lending what
/// the lease table describes.
///
/// A send that is accepted blocks its sender until the target replies. If the
/// target is already waiting the message is copied now and the target woken;
/// otherwise it waits to be collected.
#[verifier::rlimit(30)]
pub fn send(
    t: &mut Table,
    s: &mut Scheduler,
    memory: &mut Memory,
    target: u64,
    operation: u64,
    out: u64,
    out_len: u64,
    reply_buf: u64,
    reply_cap: u64,
    lease_table: u64,
    lease_count: u64,
) -> (r: Sent)
    requires
        old(t).wf(),
        old(s).wf(),
        old(memory).wf(),
        tasks::isolated(*old(memory), old(s).tasks@),
    ensures
        final(t).wf(),
        final(s).wf(),
        final(memory).wf(),
        tasks::isolated(*final(memory), final(s).tasks@),
        tasks::touched(*old(memory), old(s).tasks@, *final(memory), final(s).tasks@),
        final(s).same_rest(old(s)),
        send_effect(
            old(t),
            old(s),
            old(memory),
            target,
            operation,
            out,
            out_len,
            reply_buf,
            reply_cap,
            lease_table,
            lease_count,
            final(t),
            final(s),
            final(memory),
            r,
        ),
{
    if out_len > MAX_MESSAGE || reply_cap > MAX_MESSAGE || lease_count > MAX_LEASES {
        return Sent::Done { rc: EINVAL, len: 0 };
    }
    if target >= MAX_TASKS as u64 {
        return Sent::Done { rc: EINVAL, len: 0 };
    }
    let me = tasks::current_id(s);
    let target_id = TaskId(target as usize);
    if target_id.0 == me.0 {
        // Would block forever waiting for itself.
        return Sent::Done { rc: EINVAL, len: 0 };
    }
    if !tasks::is_alive(s, target_id) {
        return Sent::Done { rc: EDEAD, len: 0 };
    }
    let ghost all = s.tasks@;
    let ghost m = *memory;
    let root: Frame = match tasks::space_root_of(s, me) {
        Some(root) => root,
        None => {
            return Sent::Done { rc: EFAULT, len: 0 };
        },
    };
    proof {
        assert(tasks::sound_task(m, all[me.0 as int]));
        paging::lemma_sound(m, root.0 as int);
        assert forall|q: int| #[trigger]
            paging::leaves(m, root.0 as int, 0).contains(q) implies m.has(q, 4096) by {
            assert(tasks::claim(m, all[me.0 as int]).contains(q));
        }
    }
    // Checked here as well as on delivery, so a bad pointer is an immediate
    // error rather than something the sender discovers after blocking.
    if !paging::user_readable(memory, root, out, out_len) || !paging::user_writable(
        memory,
        root,
        reply_buf,
        reply_cap,
    ) {
        return Sent::Done { rc: EFAULT, len: 0 };
    }
    let leases: Vec<Lease> = match read_leases(memory, root, lease_table, lease_count) {
        Some(leases) => leases,
        None => {
            return Sent::Done { rc: EFAULT, len: 0 };
        },
    };
    let message = Message {
        target: target_id.0,
        operation,
        out,
        out_len,
        reply_buf,
        reply_cap,
    };
    match t.pending[target_id.0] {
        // The target is already waiting. Copy now and wake it.
        Some(Pending::RecvWait { buf, cap }) => {
            let len: u64 = match deliver(memory, s, me, out, out_len, target_id, buf, cap) {
                Some(len) => len,
                None => {
                    // The receiver never learned that anything happened.
                    return Sent::Done { rc: EFAULT, len: 0 };
                },
            };
            // Out of the run queue first, then wake the target: the target may
            // reply the instant it runs.
            tasks::mark_current_blocked(s);
            t.pending[target_id.0] = None;
            t.outcome[target_id.0] = Outcome { a: me.0 as u64, b: operation, c: len };
            t.pending[me.0] = Some(Pending::ReplyWait(message));
            t.leases[me.0] = leases;
            let _ = tasks::unblock_deferred(s, target_id);
        },
        // Nobody is listening yet. Wait to be collected.
        _ => {
            t.pending[me.0] = Some(Pending::SendWait(message));
            t.leases[me.0] = leases;
            tasks::mark_current_blocked(s);
        },
    }
    proof {
        tasks::lemma_reached(m, *memory, all, target_id.0 as int);
        tasks::lemma_isolated_states(*memory, all, s.tasks@);
    }
    Sent::Wait
}

// ---------------------------------------------------------------------------
// Replying.
// ---------------------------------------------------------------------------

/// What replying does, and what it returns.
pub open spec fn reply_effect(
    t1: &Table,
    s1: &Scheduler,
    m1: &Memory,
    sender: u64,
    rc: u64,
    data: u64,
    data_len: u64,
    t2: &Table,
    s2: &Scheduler,
    m2: &Memory,
    r: (u64, bool),
) -> bool {
    let me = s1.current as int;
    let all = s1.tasks@;
    let m = *m1;
    let from = sender as int;
    let nothing = {
        &&& *t2 == *t1
        &&& *s2 == *s1
        &&& *m2 == *m1
    };
    &&& t2.leases == t1.leases
    &&& if data_len > MAX_MESSAGE || sender >= MAX_TASKS {
        r == (EINVAL, false) && nothing
    } else {
        match t1.pending@[from] {
            Some(Pending::ReplyWait(message)) => {
                let len = least(data_len, message.reply_cap);
                if message.target != me {
                    r == (EINVAL, false) && nothing
                } else if deliverable(m, all, me, data, from, message.reply_buf, len) {
                    &&& r == (0u64, tasks::wakes_above(all, me, from))
                    &&& delivered(
                        m,
                        *m2,
                        all,
                        me,
                        data,
                        from,
                        message.reply_buf,
                        len,
                    )
                    &&& t2.pending@ == t1.pending@.update(from, None)
                    &&& t2.outcome@ == t1.outcome@.update(
                        from,
                        Outcome { a: rc, b: len, c: 0 },
                    )
                    &&& s2.tasks@ == tasks::woken_table(all, from)
                } else {
                    r == (EFAULT, false) && nothing
                }
            },
            _ => r == (EINVAL, false) && nothing,
        }
    }
}

/// Answer a message and let its sender go. Returns the result, and whether the
/// sender outranks the caller and should have the CPU now.
///
/// Only the task that received the message may answer it, and only while the
/// sender is waiting: anything else is refused and changes nothing.
pub fn reply(
    t: &mut Table,
    s: &mut Scheduler,
    memory: &mut Memory,
    sender: u64,
    rc: u64,
    data: u64,
    data_len: u64,
) -> (r: (u64, bool))
    requires
        old(t).wf(),
        old(s).wf(),
        old(memory).wf(),
        tasks::isolated(*old(memory), old(s).tasks@),
    ensures
        final(t).wf(),
        final(s).wf(),
        final(memory).wf(),
        tasks::isolated(*final(memory), final(s).tasks@),
        tasks::touched(*old(memory), old(s).tasks@, *final(memory), final(s).tasks@),
        final(s).same_rest(old(s)),
        reply_effect(
            old(t),
            old(s),
            old(memory),
            sender,
            rc,
            data,
            data_len,
            final(t),
            final(s),
            final(memory),
            r,
        ),
{
    if data_len > MAX_MESSAGE || sender >= MAX_TASKS as u64 {
        return (EINVAL, false);
    }
    let me = tasks::current_id(s);
    let sender_id = TaskId(sender as usize);
    let ghost m = *memory;
    let ghost all = s.tasks@;
    let message: Message = match t.pending[sender_id.0] {
        Some(Pending::ReplyWait(message)) => {
            if message.target != me.0 {
                return (EINVAL, false);
            }
            message
        },
        _ => {
            return (EINVAL, false);
        },
    };
    assert(pending_ok(t.pending@[sender_id.0 as int], sender_id.0 as int));
    match deliver(
        memory,
        s,
        me,
        data,
        data_len,
        sender_id,
        message.reply_buf,
        message.reply_cap,
    ) {
        Some(len) => {
            let above: bool = finish_sender(t, s, sender_id, rc, len);
            proof {
                tasks::lemma_reached(m, *memory, all, sender_id.0 as int);
                tasks::lemma_isolated_states(*memory, all, s.tasks@);
            }
            (0, above)
        },
        None => (EFAULT, false),
    }
}

// ---------------------------------------------------------------------------
// Receiving.
// ---------------------------------------------------------------------------

/// What became of a receive.
#[derive(Clone, Copy, PartialEq, Eq, Debug, Structural)]
pub enum Received {
    /// Something arrived, or the request was refused: this is the answer.
    Done { a: u64, b: u64, c: u64 },
    /// Nothing yet. Park, and collect on waking.
    Wait,
    /// A sender with a bad buffer was turned away, and it outranks the caller:
    /// give it the CPU, and ask again on waking.
    Again,
}

/// Senders to `me` in slots below `n`.
pub open spec fn queue_len(
    pending: Seq<Option<Pending>>,
    tasks: Seq<Option<Task>>,
    me: int,
    n: int,
) -> nat
    decreases n,
{
    if n <= 0 {
        0
    } else {
        queue_len(pending, tasks, me, n - 1) + if sends_to(pending, tasks, n - 1, me) {
            1nat
        } else {
            0nat
        }
    }
}

/// What the message tables and the task table look like, and what a receiver
/// gets, once it has worked through the queue of senders.
pub struct Served {
    pub result: Received,
    pub pending: Seq<Option<Pending>>,
    pub outcome: Seq<Outcome>,
    pub tasks: Seq<Option<Task>>,
}

/// Work through the queue: the best sender is served; one whose buffer is
/// unreadable gets its error and the next is looked at; with nobody left, wait.
pub open spec fn serve(
    m: Memory,
    pending: Seq<Option<Pending>>,
    outcome: Seq<Outcome>,
    tasks: Seq<Option<Task>>,
    me: int,
    buf: u64,
    cap: u64,
) -> Served
    decreases queue_len(pending, tasks, me, 8),
{
    if exists|i: int| #[trigger] is_best_sender(pending, tasks, i, me) && i < 8 {
        let i = choose|i: int| #[trigger] is_best_sender(pending, tasks, i, me) && i < 8;
        let message = pending[i]->0->SendWait_0;
        let len = least(message.out_len, cap);
        if deliverable(m, tasks, i, message.out, me, buf, len) {
            Served {
                result: Received::Done { a: i as u64, b: message.operation, c: len },
                pending: pending.update(i, Some(Pending::ReplyWait(message))),
                outcome,
                tasks,
            }
        } else {
            let turned_away = pending.update(i, None);
            let told = outcome.update(i, Outcome { a: EFAULT, b: 0, c: 0 });
            let woken = tasks::woken_table(tasks, i);
            proof {
                lemma_queue_shrinks(pending, tasks, me, i, 8);
            }
            if tasks::wakes_above(tasks, me, i) {
                Served {
                    result: Received::Again,
                    pending: turned_away,
                    outcome: told,
                    tasks: woken,
                }
            } else {
                serve(m, turned_away, told, woken, me, buf, cap)
            }
        }
    } else {
        Served {
            result: Received::Wait,
            pending: pending.update(me, Some(Pending::RecvWait { buf, cap })),
            outcome,
            tasks: tasks::blocked_table(tasks, me),
        }
    }
}

/// Turning the best sender away shortens the queue.
pub proof fn lemma_queue_shrinks(
    pending: Seq<Option<Pending>>,
    tasks: Seq<Option<Task>>,
    me: int,
    i: int,
    n: int,
)
    requires
        sends_to(pending, tasks, i, me),
        0 <= n <= 8,
    ensures
        queue_len(pending.update(i, None), tasks::woken_table(tasks, i), me, n) == queue_len(
            pending,
            tasks,
            me,
            n,
        ) - if i < n {
            1int
        } else {
            0int
        },
    decreases n,
{
    if n > 0 {
        lemma_queue_shrinks(pending, tasks, me, i, n - 1);
        let (p, w) = (pending.update(i, None), tasks::woken_table(tasks, i));
        assert(sends_to(p, w, n - 1, me) == (n - 1 != i && sends_to(pending, tasks, n - 1, me)));
    }
}

/// Working through the queue gives nobody an exit code, and puts nobody back to
/// work who has one.
pub proof fn lemma_served_coded(
    m: Memory,
    pending: Seq<Option<Pending>>,
    outcome: Seq<Outcome>,
    tasks: Seq<Option<Task>>,
    me: int,
    buf: u64,
    cap: u64,
)
    requires
        0 <= me < tasks.len(),
        tasks::coded(tasks),
        !tasks::has_exited(tasks, me),
    ensures
        tasks::coded(serve(m, pending, outcome, tasks, me, buf, cap).tasks),
    decreases queue_len(pending, tasks, me, 8),
{
    if exists|i: int| #[trigger] is_best_sender(pending, tasks, i, me) && i < 8 {
        let i = choose|i: int| #[trigger] is_best_sender(pending, tasks, i, me) && i < 8;
        let woken = tasks::woken_table(tasks, i);
        lemma_queue_shrinks(pending, tasks, me, i, 8);
        assert(tasks::coded(woken));
        lemma_served_coded(
            m,
            pending.update(i, None),
            outcome.update(i, Outcome { a: EFAULT, b: 0, c: 0 }),
            woken,
            me,
            buf,
            cap,
        );
    }
}

/// There is only one best sender.
proof fn lemma_best_unique(
    pending: Seq<Option<Pending>>,
    tasks: Seq<Option<Task>>,
    i: int,
    j: int,
    me: int,
)
    requires
        is_best_sender(pending, tasks, i, me),
        is_best_sender(pending, tasks, j, me),
    ensures
        i == j,
{
    if i != j {
        assert(sends_to(pending, tasks, i, me));
        assert(sends_to(pending, tasks, j, me));
    }
}

/// Where in memory a served message went, if one was.
pub open spec fn served_memory(
    m1: Memory,
    m2: Memory,
    pending1: Seq<Option<Pending>>,
    tasks: Seq<Option<Task>>,
    me: int,
    buf: u64,
    cap: u64,
    result: Received,
) -> bool {
    match result {
        Received::Done { a, b, c } => {
            let message = pending1[a as int]->0->SendWait_0;
            delivered(m1, m2, tasks, a as int, message.out, me, buf, c)
        },
        _ => m2 == m1,
    }
}

/// What receiving does, and what it returns.
pub open spec fn recv_effect(
    t1: &Table,
    n1: &Notifications,
    s1: &Scheduler,
    m1: &Memory,
    buf: u64,
    cap: u64,
    mask: u32,
    t2: &Table,
    n2: &Notifications,
    s2: &Scheduler,
    m2: &Memory,
    r: Received,
) -> bool {
    let me = s1.current as int;
    let all = s1.tasks@;
    let m = *m1;
    let fired = n1.posted@[me] & mask;
    let served = serve(m, t1.pending@, t1.outcome@, all, me, buf, cap);
    let nothing = {
        &&& *t2 == *t1
        &&& *n2 == *n1
        &&& *s2 == *s1
        &&& *m2 == m
    };
    &&& t2.leases == t1.leases
    &&& n2.routes == n1.routes
    &&& if cap > MAX_MESSAGE {
        r == (Received::Done { a: EINVAL, b: 0, c: 0 }) && nothing
    } else if tasks::root_of(all, me) is None || !paging::user_may(
        m,
        root_at(all, me),
        buf,
        cap,
        true,
    ) {
        r == (Received::Done { a: EFAULT, b: 0, c: 0 }) && nothing
    } else if fired != 0 {
        &&& r == (Received::Done { a: KERNEL, b: fired as u64, c: 0 })
        &&& *t2 == *t1
        &&& *s2 == *s1
        &&& *m2 == m
        &&& n2.wanted == n1.wanted
        &&& n2.posted@ == n1.posted@.update(me, n1.posted@[me] & !fired)
    } else {
        &&& r == served.result
        &&& t2.pending@ == served.pending
        &&& t2.outcome@ == served.outcome
        &&& s2.tasks@ == served.tasks
        &&& served_memory(m, *m2, t1.pending@, all, me, buf, cap, r)
        &&& n2.posted@ == n1.posted@
        &&& n2.wanted@ == if r == Received::Wait {
            n1.wanted@.update(me, mask)
        } else {
            n1.wanted@
        }
    }
}

/// Receive a message, or one of the notifications in `mask`.
///
/// Notifications already posted are collected first. Otherwise the most urgent
/// waiting sender is served, even if it arrived last. With nothing waiting the
/// caller is marked blocked until either arrives.
#[verifier::spinoff_prover]
#[verifier::rlimit(60)]
pub fn recv(
    t: &mut Table,
    n: &mut Notifications,
    s: &mut Scheduler,
    memory: &mut Memory,
    buf: u64,
    cap: u64,
    mask: u32,
) -> (r: Received)
    requires
        old(t).wf(),
        old(n).wf(),
        old(s).wf(),
        old(memory).wf(),
        tasks::isolated(*old(memory), old(s).tasks@),
    ensures
        final(t).wf(),
        final(n).wf(),
        final(s).wf(),
        final(memory).wf(),
        tasks::isolated(*final(memory), final(s).tasks@),
        tasks::touched(*old(memory), old(s).tasks@, *final(memory), final(s).tasks@),
        final(s).same_rest(old(s)),
        recv_effect(
            old(t),
            old(n),
            old(s),
            old(memory),
            buf,
            cap,
            mask,
            final(t),
            final(n),
            final(s),
            final(memory),
            r,
        ),
{
    if cap > MAX_MESSAGE {
        return Received::Done { a: EINVAL, b: 0, c: 0 };
    }
    let me = tasks::current_id(s);
    let ghost all = s.tasks@;
    let ghost m = *memory;
    let ghost p0 = t.pending@;
    let ghost o0 = t.outcome@;
    let ghost i = me.0 as int;
    let root: Frame = match tasks::space_root_of(s, me) {
        Some(root) => root,
        None => {
            return Received::Done { a: EFAULT, b: 0, c: 0 };
        },
    };
    proof {
        assert(tasks::sound_task(m, all[i]));
        paging::lemma_sound(m, root.0 as int);
    }
    if !paging::user_writable(memory, root, buf, cap) {
        return Received::Done { a: EFAULT, b: 0, c: 0 };
    }
    if n.posted[me.0] & mask != 0 {
        let fired: u32 = notify::take(n, me, mask);
        return Received::Done { a: KERNEL, b: fired as u64, c: 0 };
    }
    loop
        invariant
            t.wf(),
            n.wf(),
            s.wf(),
            memory.wf(),
            old(t).wf(),
            *memory == m,
            m == *old(memory),
            *n == *old(n),
            n.posted@[i] & mask == 0,
            i == me.0,
            me.0 == s.current,
            old(s).current == me.0,
            cap <= MAX_MESSAGE,
            tasks::root_of(all, i) is Some,
            root == tasks::root_of(all, i)->0,
            paging::user_may(m, root_at(all, i), buf, cap, true),
            all == old(s).tasks@,
            p0 == old(t).pending@,
            o0 == old(t).outcome@,
            tasks::isolated(m, s.tasks@),
            forall|j: int| 0 <= j < 8 ==> tasks::same_owner(all[j], #[trigger] s.tasks@[j]),
            s.same_rest(old(s)),
            t.leases == old(t).leases,
            s.tasks@.len() == all.len() == 8,
            forall|j: int|
                0 <= j < 8 ==> #[trigger] tasks::root_of(s.tasks@, j) == tasks::root_of(all, j),
            forall|j: int|
                0 <= j < 8 && (#[trigger] t.pending@[j]) is Some ==> t.pending@[j] == p0[j],
            serve(m, p0, o0, all, i, buf, cap) == serve(
                m,
                t.pending@,
                t.outcome@,
                s.tasks@,
                i,
                buf,
                cap,
            ),
        decreases queue_len(t.pending@, s.tasks@, i, 8),
    {
        let ghost p1 = t.pending@;
        let ghost o1 = t.outcome@;
        let ghost t1 = s.tasks@;
        let sender: TaskId = match best_sender(t, s, me) {
            Some(sender) => sender,
            None => {
                assert forall|j: int| !#[trigger] is_best_sender(p1, t1, j, i) by {
                    if is_best_sender(p1, t1, j, i) {
                        assert(sends_to(p1, t1, j, i));
                    }
                }
                t.pending[me.0] = Some(Pending::RecvWait { buf, cap });
                notify::arm(n, me, mask);
                tasks::mark_current_blocked(s);
                proof {
                    tasks::lemma_isolated_states(m, t1, s.tasks@);
                }
                return Received::Wait;
            },
        };
        let ghost from = sender.0 as int;
        proof {
            assert(is_best_sender(p1, t1, from, i) && from < 8);
            let chosen = choose|j: int| #[trigger] is_best_sender(p1, t1, j, i) && j < 8;
            lemma_best_unique(p1, t1, from, chosen, i);
        }
        let message: Message = match t.pending[sender.0] {
            Some(Pending::SendWait(message)) => message,
            _ => {
                assert(false);
                return Received::Wait;
            },
        };
        proof {
            assert(pending_ok(p1[from], from));
            assert(p1[from] is Some);
            let len = least(message.out_len, cap);
            assert(tasks::root_of(t1, from) == tasks::root_of(all, from));
            assert(tasks::root_of(t1, i) == tasks::root_of(all, i));
            assert(deliverable(m, t1, from, message.out, i, buf, len) == deliverable(
                m,
                all,
                from,
                message.out,
                i,
                buf,
                len,
            ));
        }
        match deliver(memory, s, sender, message.out, message.out_len, me, buf, cap) {
            Some(len) => {
                proof {
                    tasks::lemma_reached(m, *memory, t1, i);
                    lemma_same_reach(m, *memory, t1, all);
                }
                t.pending[sender.0] = Some(Pending::ReplyWait(message));
                return Received::Done { a: sender.0 as u64, b: message.operation, c: len };
            },
            None => {
                // The sender's buffer is unreadable. That is the sender's
                // fault, so the sender is the one that fails, and this receive
                // looks at the next candidate.
                let above: bool = finish_sender(t, s, sender, EFAULT, 0);
                proof {
                    tasks::lemma_isolated_states(m, t1, s.tasks@);
                    lemma_queue_shrinks(p1, t1, i, from, 8);
                    assert forall|j: int| 0 <= j < 8 implies #[trigger] tasks::root_of(s.tasks@, j)
                        == tasks::root_of(all, j) by {
                        assert(tasks::root_of(t1, j) == tasks::root_of(all, j));
                    }
                }
                if above {
                    return Received::Again;
                }
            },
        }
    }
}

/// What tasks can reach does not depend on what they are doing.
proof fn lemma_same_reach(m1: Memory, m2: Memory, one: Seq<Option<Task>>, two: Seq<Option<Task>>)
    requires
        one.len() == two.len() == 8,
        forall|j: int|
            0 <= j < 8 ==> #[trigger] tasks::root_of(one, j) == tasks::root_of(two, j),
        paging::changed_within(m1, m2, tasks::reached(m1, one)),
    ensures
        paging::changed_within(m1, m2, tasks::reached(m1, two)),
{
    assert(tasks::reached(m1, one) =~= tasks::reached(m1, two)) by {
        assert forall|q: int| tasks::reached(m1, one).contains(q) == tasks::reached(
            m1,
            two,
        ).contains(q) by {
            if tasks::reached(m1, one).contains(q) {
                let j = choose|j: int|
                    0 <= j < one.len() && #[trigger] tasks::data_frames(m1, one, j).contains(q);
                assert(tasks::root_of(one, j) == tasks::root_of(two, j));
                assert(tasks::data_frames(m1, two, j).contains(q));
            }
            if tasks::reached(m1, two).contains(q) {
                let j = choose|j: int|
                    0 <= j < two.len() && #[trigger] tasks::data_frames(m1, two, j).contains(q);
                assert(tasks::root_of(one, j) == tasks::root_of(two, j));
                assert(tasks::data_frames(m1, one, j).contains(q));
            }
        }
    }
}

/// What a receiver that has been woken gets.
pub open spec fn collected(
    t1: &Table,
    n1: &Notifications,
    me: int,
    mask: u32,
    t2: &Table,
    n2: &Notifications,
    r: Outcome,
) -> bool {
    let fired = n1.posted@[me] & mask;
    &&& t2.leases == t1.leases
    &&& n2.routes == n1.routes
    &&& n2.wanted@ == n1.wanted@.update(me, 0)
    &&& if t1.pending@[me] is Some && t1.pending@[me]->0 is RecvWait {
        &&& r == (Outcome { a: KERNEL, b: fired as u64, c: 0 })
        &&& t2.pending@ == t1.pending@.update(me, None)
        &&& t2.outcome@ == t1.outcome@
        &&& n2.posted@ == n1.posted@.update(me, n1.posted@[me] & !fired)
    } else {
        &&& r == t1.outcome@[me]
        &&& t2.pending@ == t1.pending@
        &&& t2.outcome@ == t1.outcome@.update(me, Outcome { a: 0, b: 0, c: 0 })
        &&& n2.posted@ == n1.posted@
    }
}

/// What a receiver that has been woken got: a message if one was delivered,
/// and otherwise the notifications it was waiting for.
pub fn collect_received(t: &mut Table, n: &mut Notifications, me: TaskId, mask: u32) -> (r: Outcome)
    requires
        old(t).wf(),
        old(n).wf(),
        me.0 < MAX_TASKS,
    ensures
        final(t).wf(),
        final(n).wf(),
        collected(old(t), old(n), me.0 as int, mask, final(t), final(n), r),
{
    notify::disarm(n, me);
    match t.pending[me.0] {
        Some(Pending::RecvWait { buf, cap }) => {
            t.pending[me.0] = None;
            let fired: u32 = notify::take(n, me, mask);
            Outcome { a: KERNEL, b: fired as u64, c: 0 }
        },
        _ => collect(t, me),
    }
}

// ---------------------------------------------------------------------------
// Borrowing.
// ---------------------------------------------------------------------------

/// Why a borrow is refused before any byte moves, if it is.
///
/// The lease must be one that a task lent to the caller with a message the
/// caller has not answered yet; the direction must be one that was lent; and
/// the part asked for must lie inside the lease.
pub open spec fn borrow_error(
    t: &Table,
    me: int,
    lender: u64,
    index: u64,
    offset: u64,
    len: u64,
    write: bool,
) -> Option<u64> {
    if lender >= MAX_TASKS || len > MAX_BORROW {
        Some(EINVAL)
    } else {
        match t.pending@[lender as int] {
            Some(Pending::ReplyWait(message)) => {
                let leases = t.leases@[lender as int]@;
                if message.target != me {
                    Some(EINVAL)
                } else if index >= leases.len() {
                    Some(EINVAL)
                } else {
                    let lease = leases[index as int];
                    if write && !lease.writable || !write && !lease.readable {
                        Some(EFAULT)
                    } else if offset + len > lease.len {
                        Some(EFAULT)
                    } else {
                        None
                    }
                }
            },
            _ => Some(EINVAL),
        }
    }
}

/// Find the part of a lease that a borrow asks for.
fn find_lease(
    t: &Table,
    s: &Scheduler,
    lender: u64,
    index: u64,
    offset: u64,
    len: u64,
    write: bool,
) -> (r: Result<u64, u64>)
    requires
        t.wf(),
        s.wf(),
    ensures
        match borrow_error(t, s.current as int, lender, index, offset, len, write) {
            Some(rc) => r == Err::<u64, u64>(rc),
            None => {
                let lease = t.leases@[lender as int]@[index as int];
                &&& r == Ok::<u64, u64>((lease.base + offset) as u64)
                &&& lease.base + offset + len <= u64::MAX
                &&& lender != s.current
            },
        },
{
    if lender >= MAX_TASKS as u64 || len > MAX_BORROW {
        return Err(EINVAL);
    }
    let me = tasks::current_id(s);
    let from: usize = lender as usize;
    match t.pending[from] {
        Some(Pending::ReplyWait(message)) => {
            assert(pending_ok(t.pending@[from as int], from as int));
            if message.target != me.0 {
                return Err(EINVAL);
            }
        },
        _ => {
            return Err(EINVAL);
        },
    }
    let count: usize = t.leases[from].len();
    if index >= count as u64 {
        return Err(EINVAL);
    }
    let lease = t.leases[from][index as usize];
    assert(lease == t.leases@[from as int]@[index as int]);
    let allowed: bool = if write {
        lease.writable
    } else {
        lease.readable
    };
    if !allowed {
        return Err(EFAULT);
    }
    // Bounded by the lease's own length, without wrapping.
    if offset > lease.len || len > lease.len - offset {
        return Err(EFAULT);
    }
    Ok(lease.base + offset)
}

/// A borrow that was not refused, of bytes at `va` in the lender's space:
/// whether it works, and what it moves. `buf` is the caller's own buffer.
pub open spec fn borrow_ok(
    m: Memory,
    tasks: Seq<Option<Task>>,
    me: int,
    lender: int,
    va: u64,
    buf: u64,
    len: u64,
    write: bool,
) -> bool {
    len == 0 || {
        &&& tasks::root_of(tasks, me) is Some
        &&& tasks::root_of(tasks, lender) is Some
        &&& paging::user_may(m, root_at(tasks, me), buf, len, !write)
        &&& forall|k: int|
            0 <= k < len ==> #[trigger] paging::byte_of(m, root_at(tasks, lender), va, k) is Some
    }
}

/// A copy stopped after `n` bytes, where one side is no longer mapped.
pub open spec fn stopped_at(
    m1: Memory,
    m2: Memory,
    src_root: int,
    src_va: u64,
    dst_root: int,
    dst_va: u64,
    n: int,
) -> bool {
    &&& paging::both_mapped(m1, src_root, src_va, dst_root, dst_va, n)
    &&& !paging::both_mapped(m1, src_root, src_va, dst_root, dst_va, n + 1)
    &&& paging::copied(m1, m2, src_root, src_va, dst_root, dst_va, n)
}

/// What a borrow that does not work leaves behind: nothing, if the caller may
/// not use its own buffer that way, and otherwise what came before the first
/// byte that is not there.
pub open spec fn broken_off(
    m1: Memory,
    m2: Memory,
    tasks: Seq<Option<Task>>,
    me: int,
    lender: int,
    va: u64,
    buf: u64,
    len: u64,
    write: bool,
) -> bool {
    let (mine, theirs) = (root_at(tasks, me), root_at(tasks, lender));
    if tasks::root_of(tasks, me) is None || tasks::root_of(tasks, lender) is None
        || !paging::user_may(m1, mine, buf, len, !write) {
        m2 == m1
    } else if write {
        exists|n: int| 0 <= n < len && #[trigger] stopped_at(m1, m2, mine, buf, theirs, va, n)
    } else {
        exists|n: int| 0 <= n < len && #[trigger] stopped_at(m1, m2, theirs, va, mine, buf, n)
    }
}

/// Copy from one task to another, as far as both sides are mapped.
fn carry(
    memory: &mut Memory,
    s: &Scheduler,
    src: TaskId,
    src_root: Frame,
    src_va: u64,
    dst: TaskId,
    dst_root: Frame,
    dst_va: u64,
    len: u64,
) -> (r: bool)
    requires
        old(memory).wf(),
        s.wf(),
        tasks::isolated(*old(memory), s.tasks@),
        src.0 != dst.0,
        dst.0 < MAX_TASKS,
        tasks::root_of(s.tasks@, src.0 as int) == Some(src_root),
        tasks::root_of(s.tasks@, dst.0 as int) == Some(dst_root),
        len <= MAX_BORROW,
        src_va + len <= u64::MAX,
        dst_va + len <= u64::MAX,
    ensures
        final(memory).wf(),
        tasks::isolated(*final(memory), s.tasks@),
        tasks::touched(*old(memory), s.tasks@, *final(memory), s.tasks@),
        r == paging::both_mapped(
            *old(memory),
            src_root.0 as int,
            src_va,
            dst_root.0 as int,
            dst_va,
            len as int,
        ),
        if r {
            paging::copied(
                *old(memory),
                *final(memory),
                src_root.0 as int,
                src_va,
                dst_root.0 as int,
                dst_va,
                len as int,
            )
        } else {
            exists|n: int|
                0 <= n < len && #[trigger] stopped_at(
                    *old(memory),
                    *final(memory),
                    src_root.0 as int,
                    src_va,
                    dst_root.0 as int,
                    dst_va,
                    n,
                )
        },
{
    let ghost m = *memory;
    let ghost all = s.tasks@;
    let ghost (one, two) = (src_root.0 as int, dst_root.0 as int);
    proof {
        lemma_apart(m, all, src.0 as int, src_va, dst.0 as int, dst_va, len as int);
    }
    let moved: bool = paging::copy_across(memory, src_root, src_va, dst_root, dst_va, len);
    proof {
        let n = choose|n: int|
            {
                &&& 0 <= n <= len
                &&& #[trigger] paging::both_mapped(m, one, src_va, two, dst_va, n)
                &&& n < len ==> !paging::both_mapped(m, one, src_va, two, dst_va, n + 1)
                &&& paging::copied(m, *memory, one, src_va, two, dst_va, n)
            };
        lemma_copy_isolated(m, *memory, all, src.0 as int, src_va, dst.0 as int, dst_va, n);
        tasks::lemma_reached(m, *memory, all, dst.0 as int);
        if moved {
            if n < len {
                assert(paging::both_mapped(m, one, src_va, two, dst_va, n + 1));
            }
        } else {
            assert(n < len);
            assert(stopped_at(m, *memory, one, src_va, two, dst_va, n));
        }
    }
    moved
}

/// A borrow into or out of a buffer that may be used works exactly when the
/// lender's side is mapped.
proof fn lemma_borrow_mapped(
    m: Memory,
    tasks: Seq<Option<Task>>,
    me: int,
    lender: int,
    va: u64,
    buf: u64,
    len: u64,
    write: bool,
)
    requires
        len > 0,
        tasks::root_of(tasks, me) is Some,
        tasks::root_of(tasks, lender) is Some,
        paging::private(m, root_at(tasks, me), 0),
        paging::user_may(m, root_at(tasks, me), buf, len, !write),
    ensures
        ({
            let (mine, theirs) = (root_at(tasks, me), root_at(tasks, lender));
            borrow_ok(m, tasks, me, lender, va, buf, len, write) == if write {
                paging::both_mapped(m, mine, buf, theirs, va, len as int)
            } else {
                paging::both_mapped(m, theirs, va, mine, buf, len as int)
            }
        }),
{
    let (mine, theirs) = (root_at(tasks, me), root_at(tasks, lender));
    lemma_mapped(m, mine, buf, len, !write);
    if paging::both_mapped(m, mine, buf, theirs, va, len as int) || paging::both_mapped(
        m,
        theirs,
        va,
        mine,
        buf,
        len as int,
    ) {
        assert forall|k: int| 0 <= k < len implies #[trigger] paging::byte_of(
            m,
            theirs,
            va,
            k,
        ) is Some by {
            assert(paging::byte_of(m, mine, buf, k) is Some);
        }
    }
}

/// Move bytes between the caller's buffer and the lender's memory.
fn move_bytes(
    memory: &mut Memory,
    s: &Scheduler,
    lender: TaskId,
    va: u64,
    buf: u64,
    len: u64,
    write: bool,
) -> (r: u64)
    requires
        old(memory).wf(),
        s.wf(),
        tasks::isolated(*old(memory), s.tasks@),
        lender.0 < MAX_TASKS,
        lender.0 != s.current,
        len <= MAX_BORROW,
        va + len <= u64::MAX,
    ensures
        final(memory).wf(),
        tasks::isolated(*final(memory), s.tasks@),
        tasks::touched(*old(memory), s.tasks@, *final(memory), s.tasks@),
        ({
            let me = s.current as int;
            let all = s.tasks@;
            let m = *old(memory);
            if len == 0 {
                r == 0 && *final(memory) == m
            } else if !borrow_ok(m, all, me, lender.0 as int, va, buf, len, write) {
                &&& r == EFAULT
                &&& broken_off(
                    m,
                    *final(memory),
                    all,
                    me,
                    lender.0 as int,
                    va,
                    buf,
                    len,
                    write,
                )
            } else {
                &&& r == 0
                &&& if write {
                    delivered(m, *final(memory), all, me, buf, lender.0 as int, va, len)
                } else {
                    delivered(m, *final(memory), all, lender.0 as int, va, me, buf, len)
                }
            }
        }),
{
    if len == 0 {
        return 0;
    }
    let me = tasks::current_id(s);
    let ghost m = *memory;
    let ghost all = s.tasks@;
    let mine: Frame = match tasks::space_root_of(s, me) {
        Some(root) => root,
        None => {
            return EFAULT;
        },
    };
    let theirs: Frame = match tasks::space_root_of(s, lender) {
        Some(root) => root,
        None => {
            return EFAULT;
        },
    };
    proof {
        assert(tasks::sound_task(m, all[me.0 as int]));
        paging::lemma_sound(m, mine.0 as int);
    }
    let allowed: bool = if write {
        paging::user_readable(memory, mine, buf, len)
    } else {
        paging::user_writable(memory, mine, buf, len)
    };
    if !allowed {
        return EFAULT;
    }
    proof {
        lemma_borrow_mapped(m, all, me.0 as int, lender.0 as int, va, buf, len, write);
    }
    let moved: bool = if write {
        carry(memory, s, me, mine, buf, lender, theirs, va, len)
    } else {
        carry(memory, s, lender, theirs, va, me, mine, buf, len)
    };
    if moved {
        0
    } else {
        EFAULT
    }
}

/// What borrowing does, and what it returns.
pub open spec fn borrow_effect(
    t: &Table,
    s: &Scheduler,
    m1: &Memory,
    lender: u64,
    index: u64,
    offset: u64,
    buf: u64,
    len: u64,
    write: bool,
    m2: &Memory,
    r: u64,
) -> bool {
    let me = s.current as int;
    let from = lender as int;
    match borrow_error(t, me, lender, index, offset, len, write) {
        Some(rc) => r == rc && *m2 == *m1,
        None => {
            let va = (t.leases@[from]@[index as int].base + offset) as u64;
            if borrow_ok(*m1, s.tasks@, me, from, va, buf, len, write) {
                &&& r == 0
                &&& if write {
                    delivered(*m1, *m2, s.tasks@, me, buf, from, va, len)
                } else {
                    delivered(*m1, *m2, s.tasks@, from, va, me, buf, len)
                }
            } else {
                r == EFAULT && broken_off(*m1, *m2, s.tasks@, me, from, va, buf, len, write)
            }
        },
    }
}

/// Read part of a lease into the caller's memory.
///
/// The receiver names a lease by number and asks the kernel to move the bytes;
/// it never holds an address in the sender's space.
pub fn borrow_read(
    t: &Table,
    s: &Scheduler,
    memory: &mut Memory,
    lender: u64,
    index: u64,
    offset: u64,
    buf: u64,
    len: u64,
) -> (r: u64)
    requires
        t.wf(),
        s.wf(),
        old(memory).wf(),
        tasks::isolated(*old(memory), s.tasks@),
    ensures
        final(memory).wf(),
        tasks::isolated(*final(memory), s.tasks@),
        tasks::touched(*old(memory), s.tasks@, *final(memory), s.tasks@),
        borrow_effect(
            t,
            s,
            old(memory),
            lender,
            index,
            offset,
            buf,
            len,
            false,
            final(memory),
            r,
        ),
{
    match find_lease(t, s, lender, index, offset, len, false) {
        Ok(va) => move_bytes(memory, s, TaskId(lender as usize), va, buf, len, false),
        Err(rc) => rc,
    }
}

/// Write part of a lease from the caller's memory.
pub fn borrow_write(
    t: &Table,
    s: &Scheduler,
    memory: &mut Memory,
    lender: u64,
    index: u64,
    offset: u64,
    buf: u64,
    len: u64,
) -> (r: u64)
    requires
        t.wf(),
        s.wf(),
        old(memory).wf(),
        tasks::isolated(*old(memory), s.tasks@),
    ensures
        final(memory).wf(),
        tasks::isolated(*final(memory), s.tasks@),
        tasks::touched(*old(memory), s.tasks@, *final(memory), s.tasks@),
        borrow_effect(
            t,
            s,
            old(memory),
            lender,
            index,
            offset,
            buf,
            len,
            true,
            final(memory),
            r,
        ),
{
    match find_lease(t, s, lender, index, offset, len, true) {
        Ok(va) => move_bytes(memory, s, TaskId(lender as usize), va, buf, len, true),
        Err(rc) => rc,
    }
}

// ---------------------------------------------------------------------------
// Laws.
// ---------------------------------------------------------------------------

/// The bytes of a task that EL0 may read are the same in two memories.
pub open spec fn undisturbed(m1: Memory, m2: Memory, tasks: Seq<Option<Task>>, i: int) -> bool {
    forall|va: u64, n: u64|
        paging::user_may(m1, root_at(tasks, i), va, n, false) ==> #[trigger] user_bytes(
            m2,
            root_at(tasks, i),
            va,
            n as int,
        ) == user_bytes(m1, root_at(tasks, i), va, n as int)
}

/// What a task may reach keeps its value when something is copied to another
/// task.
#[verifier::spinoff_prover]
proof fn lemma_byte_spared(
    m1: Memory,
    m2: Memory,
    tasks: Seq<Option<Task>>,
    s: int,
    src_va: u64,
    dst: int,
    dst_va: u64,
    len: int,
    i: int,
    va: u64,
    k: int,
)
    requires
        tasks::isolated(m1, tasks),
        0 <= i < tasks.len(),
        0 <= dst < tasks.len(),
        i != dst,
        tasks::root_of(tasks, i) is Some,
        tasks::root_of(tasks, dst) is Some,
        0 <= len,
        dst_va + len <= u64::MAX,
        paging::copied(m1, m2, s, src_va, root_at(tasks, dst), dst_va, len),
        paging::byte_of(m1, root_at(tasks, i), va, k) is Some,
    ensures
        ({
            let pa = paging::byte_of(m1, root_at(tasks, i), va, k)->0;
            m2.byte_at(pa) == m1.byte_at(pa)
        }),
{
    let (root, d) = (root_at(tasks, i), root_at(tasks, dst));
    let pa = paging::byte_of(m1, root, va, k)->0;
    assert(tasks::sound_task(m1, tasks[i]));
    assert(tasks::sound_task(m1, tasks[dst]));
    tasks::lemma_memory_is_private(m1, tasks, i, dst, va, k);
    paging::lemma_leaf_frame(m1, root, (va + k) as u64, 0);
    assert forall|j: int| 0 <= j < len implies #[trigger] paging::byte_of(m1, d, dst_va, j) != Some(
        pa,
    ) by {
        paging::lemma_leaf_frame(m1, d, (dst_va + j) as u64, 0);
    }
}

/// Copying to one task leaves what another may read as it was.
#[verifier::spinoff_prover]
proof fn lemma_undisturbed(
    m1: Memory,
    m2: Memory,
    tasks: Seq<Option<Task>>,
    s: int,
    src_va: u64,
    dst: int,
    dst_va: u64,
    len: int,
    i: int,
)
    requires
        tasks::isolated(m1, tasks),
        0 <= i < tasks.len(),
        0 <= dst < tasks.len(),
        i != dst,
        tasks::root_of(tasks, i) is Some,
        tasks::root_of(tasks, dst) is Some,
        0 <= len,
        dst_va + len <= u64::MAX,
        paging::copied(m1, m2, s, src_va, root_at(tasks, dst), dst_va, len),
        forall|va: u64| #[trigger]
            paging::stop(m2, root_at(tasks, i), va, 0) == paging::stop(
                m1,
                root_at(tasks, i),
                va,
                0,
            ),
    ensures
        undisturbed(m1, m2, tasks, i),
{
    let root = root_at(tasks, i);
    assert(tasks::sound_task(m1, tasks[i]));
    assert forall|va: u64, n: u64|
        paging::user_may(m1, root, va, n, false) implies #[trigger] user_bytes(
        m2,
        root,
        va,
        n as int,
    ) == user_bytes(m1, root, va, n as int) by {
        if n > 0 {
            lemma_mapped(m1, root, va, n, false);
        }
        assert forall|k: int| 0 <= k < n implies user_bytes(m2, root, va, n as int)[k]
            == user_bytes(m1, root, va, n as int)[k] by {
            assert(paging::byte_of(m2, root, va, k) == paging::byte_of(m1, root, va, k));
            lemma_byte_spared(m1, m2, tasks, s, src_va, dst, dst_va, len, i, va, k);
        }
        assert(user_bytes(m2, root, va, n as int) =~= user_bytes(m1, root, va, n as int));
    }
}

/// A copy arrives, and disturbs nobody but the task it was for.
#[verifier::spinoff_prover]
proof fn lemma_copy_arrives(
    m1: Memory,
    m2: Memory,
    tasks: Seq<Option<Task>>,
    src: int,
    src_va: u64,
    dst: int,
    dst_va: u64,
    len: int,
)
    requires
        tasks::isolated(m1, tasks),
        tasks::root_of(tasks, dst) is Some,
        0 <= len,
        dst_va + len <= u64::MAX,
        paging::copied(
            m1,
            m2,
            root_at(tasks, src),
            src_va,
            root_at(tasks, dst),
            dst_va,
            len,
        ),
    ensures
        user_bytes(m2, root_at(tasks, dst), dst_va, len) == user_bytes(
            m1,
            root_at(tasks, src),
            src_va,
            len,
        ),
        forall|i: int|
            0 <= i < tasks.len() && i != dst && tasks::root_of(tasks, i) is Some
                ==> #[trigger] undisturbed(m1, m2, tasks, i),
{
    let (s, d) = (root_at(tasks, src), root_at(tasks, dst));
    lemma_copy_isolated(m1, m2, tasks, src, src_va, dst, dst_va, len);
    assert(tasks[dst] is Some && tasks[dst]->0.space is Some);
    assert forall|k: int| 0 <= k < len implies user_bytes(m2, d, dst_va, len)[k] == user_bytes(
        m1,
        s,
        src_va,
        len,
    )[k] by {
        assert(paging::byte_of(m2, d, dst_va, k) == paging::byte_of(m1, d, dst_va, k));
    }
    assert(user_bytes(m2, d, dst_va, len) =~= user_bytes(m1, s, src_va, len));
    assert forall|i: int|
        0 <= i < tasks.len() && i != dst && tasks::root_of(tasks, i) is Some implies
        #[trigger] undisturbed(m1, m2, tasks, i) by {
        assert(tasks[i] is Some && tasks[i]->0.space is Some);
        lemma_undisturbed(m1, m2, tasks, s, src_va, dst, dst_va, len, i);
    }
}

/// A message arrives as it was sent: what the receiver reads in its own memory
/// is what the sender had in its own, and nobody's memory but the receiver's
/// has changed.
pub proof fn lemma_message_arrives(
    m1: Memory,
    m2: Memory,
    tasks: Seq<Option<Task>>,
    src: int,
    src_buf: u64,
    dst: int,
    dst_buf: u64,
    len: u64,
)
    requires
        tasks::isolated(m1, tasks),
        deliverable(m1, tasks, src, src_buf, dst, dst_buf, len),
        delivered(m1, m2, tasks, src, src_buf, dst, dst_buf, len),
    ensures
        user_bytes(m2, root_at(tasks, dst), dst_buf, len as int) == user_bytes(
            m1,
            root_at(tasks, src),
            src_buf,
            len as int,
        ),
        forall|i: int|
            0 <= i < tasks.len() && i != dst && tasks::root_of(tasks, i) is Some
                ==> #[trigger] undisturbed(m1, m2, tasks, i),
{
    if len > 0 {
        lemma_copy_arrives(m1, m2, tasks, src, src_buf, dst, dst_buf, len as int);
    } else {
        assert(user_bytes(m2, root_at(tasks, dst), dst_buf, 0) =~= user_bytes(
            m1,
            root_at(tasks, src),
            src_buf,
            0,
        ));
    }
}

/// A borrow moves the bytes it names: what the borrower reads is what the
/// lender lent, what it writes is what the lender finds, and nobody else's
/// memory has changed.
pub proof fn lemma_borrow_moves(
    t: &Table,
    s: &Scheduler,
    m1: &Memory,
    lender: u64,
    index: u64,
    offset: u64,
    buf: u64,
    len: u64,
    write: bool,
    m2: &Memory,
)
    requires
        t.wf(),
        tasks::isolated(*m1, s.tasks@),
        borrow_effect(t, s, m1, lender, index, offset, buf, len, write, m2, 0),
    ensures
        ({
            let va = (t.leases@[lender as int]@[index as int].base + offset) as u64;
            let mine = root_at(s.tasks@, s.current as int);
            let theirs = root_at(s.tasks@, lender as int);
            if write {
                user_bytes(*m2, theirs, va, len as int) == user_bytes(*m1, mine, buf, len as int)
            } else {
                user_bytes(*m2, mine, buf, len as int) == user_bytes(*m1, theirs, va, len as int)
            }
        }),
        forall|i: int|
            0 <= i < s.tasks@.len() && i != (if write {
                lender as int
            } else {
                s.current as int
            }) && tasks::root_of(s.tasks@, i) is Some ==> #[trigger] undisturbed(
                *m1,
                *m2,
                s.tasks@,
                i,
            ),
{
    let (me, from) = (s.current as int, lender as int);
    let lease = t.leases@[from]@[index as int];
    let va = (lease.base + offset) as u64;
    assert(lease.base + lease.len <= u64::MAX);
    if len == 0 {
        let (mine, theirs) = (root_at(s.tasks@, me), root_at(s.tasks@, from));
        assert(user_bytes(*m2, theirs, va, 0) =~= user_bytes(*m1, mine, buf, 0));
        assert(user_bytes(*m2, mine, buf, 0) =~= user_bytes(*m1, theirs, va, 0));
    } else if write {
        lemma_copy_arrives(*m1, *m2, s.tasks@, me, buf, from, va, len as int);
    } else {
        lemma_copy_arrives(*m1, *m2, s.tasks@, from, va, me, buf, len as int);
    }
}

/// Once a task is gone for good, nobody waits on it, and everybody who did has
/// been told.
pub proof fn lemma_nobody_waits_on_the_gone(t1: &Table, t2: &Table, gone: int, i: int)
    requires
        t1.wf(),
        0 <= gone < 8,
        0 <= i < 8,
        left(t1, t2, gone),
    ensures
        !waits_on(t2.pending@[i], gone),
        i != gone && waits_on(t1.pending@[i], gone) ==> t2.outcome@[i] == (Outcome {
            a: EDEAD,
            b: 0,
            c: 0,
        }),
        !waits_on(t1.pending@[i], gone) ==> t2.outcome@[i] == t1.outcome@[i],
{
}

/// An answered sender keeps its answer: whoever answered it may stop for good
/// the next moment, and the answer is not overwritten.
pub proof fn lemma_answer_survives(
    t1: &Table,
    s1: &Scheduler,
    m1: &Memory,
    sender: u64,
    rc: u64,
    data: u64,
    data_len: u64,
    t2: &Table,
    s2: &Scheduler,
    m2: &Memory,
    switch: bool,
    t3: &Table,
    gone: int,
)
    requires
        t1.wf(),
        t2.wf(),
        0 <= gone < 8,
        reply_effect(t1, s1, m1, sender, rc, data, data_len, t2, s2, m2, (0u64, switch)),
        left(t2, t3, gone),
    ensures
        t3.outcome@[sender as int] == t2.outcome@[sender as int],
        t2.outcome@[sender as int].a == rc,
        t3.pending@[sender as int] is None,
{
}

/// Only the task that received a message may answer it: a reply from anybody
/// else is refused, and changes nothing.
pub proof fn lemma_forged_reply(
    t1: &Table,
    s1: &Scheduler,
    m1: &Memory,
    sender: u64,
    rc: u64,
    data: u64,
    data_len: u64,
    t2: &Table,
    s2: &Scheduler,
    m2: &Memory,
    r: (u64, bool),
)
    requires
        sender < 8,
        !(t1.pending@[sender as int] matches Some(Pending::ReplyWait(message)) && message.target
            == s1.current),
        reply_effect(t1, s1, m1, sender, rc, data, data_len, t2, s2, m2, r),
    ensures
        r == (EINVAL, false),
        *t2 == *t1,
        *s2 == *s1,
        *m2 == *m1,
{
}

/// A lease ends with the reply to the send that carried it: whatever the
/// receiver asks for afterwards is refused.
pub proof fn lemma_lease_ends_with_reply(
    t1: &Table,
    s1: &Scheduler,
    m1: &Memory,
    sender: u64,
    rc: u64,
    data: u64,
    data_len: u64,
    t2: &Table,
    s2: &Scheduler,
    m2: &Memory,
    switch: bool,
    borrower: int,
    index: u64,
    offset: u64,
    len: u64,
    write: bool,
)
    requires
        t1.wf(),
        reply_effect(t1, s1, m1, sender, rc, data, data_len, t2, s2, m2, (0u64, switch)),
    ensures
        borrow_error(t2, borrower, sender, index, offset, len, write) == Some(EINVAL),
{
}

/// A receiver only ever has what it was lent: a borrow that is allowed is from
/// a task that is waiting for the borrower's reply, and lies inside one of the
/// regions that task lent in that direction.
pub proof fn lemma_borrow_is_bounded(
    t: &Table,
    me: int,
    lender: u64,
    index: u64,
    offset: u64,
    len: u64,
    write: bool,
)
    requires
        t.wf(),
        borrow_error(t, me, lender, index, offset, len, write) is None,
    ensures
        t.pending@[lender as int] is Some,
        t.pending@[lender as int]->0 is ReplyWait,
        t.pending@[lender as int]->0->ReplyWait_0.target == me,
        index < t.leases@[lender as int]@.len(),
        ({
            let lease = t.leases@[lender as int]@[index as int];
            &&& offset + len <= lease.len
            &&& write ==> lease.writable
            &&& !write ==> lease.readable
        }),
{
}

/// Two copies of the same bytes between the same buffers leave the same memory.
proof fn lemma_same_copy(
    m: Memory,
    one: Memory,
    two: Memory,
    tasks: Seq<Option<Task>>,
    src: int,
    src_buf: u64,
    dst: int,
    dst_buf: u64,
    len: u64,
    pa: int,
)
    requires
        deliverable(m, tasks, src, src_buf, dst, dst_buf, len),
        delivered(m, one, tasks, src, src_buf, dst, dst_buf, len),
        delivered(m, two, tasks, src, src_buf, dst, dst_buf, len),
        m.has(pa, 1),
    ensures
        one.byte_at(pa) == two.byte_at(pa),
{
    if len > 0 {
        let d = root_at(tasks, dst);
        if exists|k: int| 0 <= k < len && #[trigger] paging::byte_of(m, d, dst_buf, k) == Some(pa) {
            let k = choose|k: int|
                0 <= k < len && #[trigger] paging::byte_of(m, d, dst_buf, k) == Some(pa);
            assert(paging::byte_of(m, d, dst_buf, k)->0 == pa);
        } else {
            assert(one.byte_at(pa) == m.byte_at(pa));
            assert(two.byte_at(pa) == m.byte_at(pa));
        }
    }
}

/// It does not matter who comes first. Whether the receiver was already waiting
/// when the message was sent, or the message was already waiting when the
/// receiver came for it, the receiver gets the same answer and the same bytes.
///
/// `one` is a send to a task that is waiting; `two` is a receive by that task
/// with the same message waiting and nothing more urgent before it.
pub proof fn lemma_either_order(
    t1: &Table,
    s1: &Scheduler,
    t2: &Table,
    s2: &Scheduler,
    one: &Memory,
    t3: &Table,
    n3: &Notifications,
    s3: &Scheduler,
    t4: &Table,
    n4: &Notifications,
    s4: &Scheduler,
    two: &Memory,
    m: &Memory,
    message: Message,
    buf: u64,
    cap: u64,
    mask: u32,
    lease_table: u64,
    lease_count: u64,
    r: Received,
    pa: int,
)
    requires
        s3.tasks@ == s1.tasks@,
        message.target < 8,
        t1.pending@[message.target as int] == Some(Pending::RecvWait { buf, cap }),
        send_effect(
            t1,
            s1,
            m,
            message.target as u64,
            message.operation,
            message.out,
            message.out_len,
            message.reply_buf,
            message.reply_cap,
            lease_table,
            lease_count,
            t2,
            s2,
            one,
            Sent::Wait,
        ),
        s3.current == message.target,
        is_best_sender(t3.pending@, s3.tasks@, s1.current as int, message.target as int),
        s1.current < 8,
        t3.pending@[s1.current as int] == Some(Pending::SendWait(message)),
        cap <= MAX_MESSAGE,
        tasks::root_of(s3.tasks@, s3.current as int) is Some,
        paging::user_may(*m, root_at(s3.tasks@, s3.current as int), buf, cap, true),
        n3.posted@[s3.current as int] & mask == 0,
        t1.outcome@.len() == 8,
        recv_effect(t3, n3, s3, m, buf, cap, mask, t4, n4, s4, two, r),
        m.has(pa, 1),
    ensures
        ({
            let o = t2.outcome@[message.target as int];
            r == (Received::Done { a: o.a, b: o.b, c: o.c })
        }),
        one.byte_at(pa) == two.byte_at(pa),
{
    let to = message.target as int;
    let me = s1.current as int;
    let all = s1.tasks@;
    let len = least(message.out_len, cap);
    let chosen = choose|i: int|
        #[trigger] is_best_sender(t3.pending@, s3.tasks@, i, to) && i < 8;
    lemma_best_unique(t3.pending@, s3.tasks@, me, chosen, to);
    assert(deliverable(*m, all, me, message.out, to, buf, len));
    lemma_same_copy(*m, *one, *two, all, me, message.out, to, buf, len, pa);
}

/// The number that eight bytes spell, lowest first.
pub open spec fn little(b: Seq<u8>, at: int) -> int {
    b[at] + 0x100 * (b[at + 1] + 0x100 * (b[at + 2] + 0x100 * (b[at + 3] + 0x100 * (b[at + 4]
        + 0x100 * (b[at + 5] + 0x100 * (b[at + 6] + 0x100 * b[at + 7]))))))
}

/// A lease says what three words of a lease table say: where it begins, how
/// long it is, and in its two low bits whether it may be read and written.
pub open spec fn says(b: Seq<u8>, i: int, lease: Lease) -> bool {
    let flags = little(b, 24 * i + 16);
    &&& lease.base == little(b, 24 * i)
    &&& lease.len == little(b, 24 * i + 8)
    &&& lease.readable == (flags % 2 == 1)
    &&& lease.writable == (flags % 4 >= 2)
}

/// An entry of a lease table is the lease it says.
pub proof fn lemma_lease_says(b: Seq<u8>, i: int)
    ensures
        says(b, i, lease_at(b, i)),
{
    reveal(word_at);
    let flags = word_at(b, 24 * i + 16);
    assert(flags == little(b, 24 * i + 16));
    assert((flags / 2 % 2 == 1) == (flags % 4 >= 2));
}

/// A send that is accepted leaves its sender blocked on exactly the message it
/// sent: picked up if the target was waiting for one, and waiting to be picked
/// up otherwise. Nobody else's conversation changes but the target's.
pub proof fn lemma_sender_waits_on_its_message(
    t: &mut Table,
    s: &mut Scheduler,
    m: &mut Memory,
    target: u64,
    operation: u64,
    out: u64,
    out_len: u64,
    reply_buf: u64,
    reply_cap: u64,
    lease_table: u64,
    lease_count: u64,
)
    requires
        old(t).wf(),
        old(s).wf(),
        call_ensures(
            send,
            (
                t,
                s,
                m,
                target,
                operation,
                out,
                out_len,
                reply_buf,
                reply_cap,
                lease_table,
                lease_count,
            ),
            Sent::Wait,
        ),
    ensures
        target < 8,
        target != old(s).current,
        ({
            let (me, to) = (old(s).current as int, target as int);
            let message = Message {
                target: target as usize,
                operation,
                out,
                out_len,
                reply_buf,
                reply_cap,
            };
            let waiting = old(t).pending@[to] is Some && old(t).pending@[to]->0 is RecvWait;
            &&& tasks::in_state(final(s).tasks@, me, State::Blocked)
            &&& final(t).pending@[me] == if waiting {
                Some(Pending::ReplyWait(message))
            } else {
                Some(Pending::SendWait(message))
            }
            &&& !waiting ==> {
                &&& *final(m) == *old(m)
                &&& final(t).pending@[to] == old(t).pending@[to]
                &&& final(t).outcome@ == old(t).outcome@
                &&& final(s).tasks@[to] == old(s).tasks@[to]
            }
            &&& forall|i: int|
                0 <= i < 8 && i != me && i != to ==> {
                    &&& #[trigger] final(t).pending@[i] == old(t).pending@[i]
                    &&& final(t).outcome@[i] == old(t).outcome@[i]
                    &&& final(s).tasks@[i] == old(s).tasks@[i]
                }
        }),
{
}

/// What a sender lends with a message is what its lease table says, region for
/// region, whether or not the target was waiting for the message; and nobody
/// else's lent regions change.
pub proof fn lemma_lent_is_what_was_asked(
    t: &mut Table,
    s: &mut Scheduler,
    m: &mut Memory,
    target: u64,
    operation: u64,
    out: u64,
    out_len: u64,
    reply_buf: u64,
    reply_cap: u64,
    lease_table: u64,
    lease_count: u64,
)
    requires
        old(t).wf(),
        old(s).wf(),
        call_ensures(
            send,
            (
                t,
                s,
                m,
                target,
                operation,
                out,
                out_len,
                reply_buf,
                reply_cap,
                lease_table,
                lease_count,
            ),
            Sent::Wait,
        ),
    ensures
        ({
            let me = old(s).current as int;
            let bytes = user_bytes(
                *old(m),
                root_at(old(s).tasks@, me),
                lease_table,
                24 * lease_count,
            );
            &&& final(t).leases@[me]@.len() == lease_count
            &&& forall|i: int|
                0 <= i < lease_count ==> says(bytes, i, #[trigger] final(t).leases@[me]@[i])
            &&& forall|i: int|
                0 <= i < 8 && i != me ==> #[trigger] final(t).leases@[i] == old(t).leases@[i]
        }),
{
    let me = old(s).current as int;
    let bytes = user_bytes(*old(m), root_at(old(s).tasks@, me), lease_table, 24 * lease_count);
    assert forall|i: int| 0 <= i < lease_count implies says(
        bytes,
        i,
        #[trigger] final(t).leases@[me]@[i],
    ) by {
        lemma_lease_says(bytes, i);
    }
}

/// Who comes first does not matter to what is lent either: the same send lends
/// the same regions to a target that was waiting and to one that was not.
pub proof fn lemma_lent_in_either_order(
    t: &mut Table,
    s: &mut Scheduler,
    m: &mut Memory,
    t2: &mut Table,
    s2: &mut Scheduler,
    m2: &mut Memory,
    target: u64,
    operation: u64,
    out: u64,
    out_len: u64,
    reply_buf: u64,
    reply_cap: u64,
    lease_table: u64,
    lease_count: u64,
)
    requires
        old(t).wf(),
        old(t2).wf(),
        old(s).wf(),
        *old(s2) == *old(s),
        *old(m2) == *old(m),
        call_ensures(
            send,
            (
                t,
                s,
                m,
                target,
                operation,
                out,
                out_len,
                reply_buf,
                reply_cap,
                lease_table,
                lease_count,
            ),
            Sent::Wait,
        ),
        call_ensures(
            send,
            (
                t2,
                s2,
                m2,
                target,
                operation,
                out,
                out_len,
                reply_buf,
                reply_cap,
                lease_table,
                lease_count,
            ),
            Sent::Wait,
        ),
    ensures
        final(t).leases@[old(s).current as int]@ == final(t2).leases@[old(s).current as int]@,
{
}

/// A target that was waiting gets the message there and then: the sender's
/// bytes are in its buffer, as many as fit, it is told who sent what, and it is
/// back in the running.
pub proof fn lemma_waiting_target_gets_the_message(
    t: &mut Table,
    s: &mut Scheduler,
    m: &mut Memory,
    target: u64,
    operation: u64,
    out: u64,
    out_len: u64,
    reply_buf: u64,
    reply_cap: u64,
    lease_table: u64,
    lease_count: u64,
    buf: u64,
    cap: u64,
    len: u64,
)
    requires
        old(t).wf(),
        old(s).wf(),
        tasks::isolated(*old(m), old(s).tasks@),
        target < 8,
        old(t).pending@[target as int] == Some(Pending::RecvWait { buf, cap }),
        len <= out_len && len <= cap,
        len == out_len || len == cap,
        call_ensures(
            send,
            (
                t,
                s,
                m,
                target,
                operation,
                out,
                out_len,
                reply_buf,
                reply_cap,
                lease_table,
                lease_count,
            ),
            Sent::Wait,
        ),
    ensures
        ({
            let (me, to) = (old(s).current as int, target as int);
            let all = old(s).tasks@;
            &&& final(t).outcome@[to] == (Outcome { a: me as u64, b: operation, c: len })
            &&& final(t).pending@[to] is None
            &&& tasks::in_state(all, to, State::Blocked) ==> tasks::in_state(
                final(s).tasks@,
                to,
                State::Runnable,
            )
            &&& user_bytes(*final(m), root_at(all, to), buf, len as int) == user_bytes(
                *old(m),
                root_at(all, me),
                out,
                len as int,
            )
            &&& forall|i: int|
                0 <= i < 8 && i != to && tasks::root_of(all, i) is Some ==> #[trigger] undisturbed(
                    *old(m),
                    *final(m),
                    all,
                    i,
                )
        }),
{
    let (me, to) = (old(s).current as int, target as int);
    lemma_message_arrives(*old(m), *final(m), old(s).tasks@, me, out, to, buf, len);
}

/// A send is refused for a reason, and a refused send changes nothing. It is
/// invalid if it is too long, lends too much, or is to nobody or to oneself;
/// the target is dead if it can no longer receive; and otherwise the sender, or
/// a target that was waiting, does not own the memory it named.
pub proof fn lemma_send_is_refused_for_a_reason(
    t: &mut Table,
    s: &mut Scheduler,
    m: &mut Memory,
    target: u64,
    operation: u64,
    out: u64,
    out_len: u64,
    reply_buf: u64,
    reply_cap: u64,
    lease_table: u64,
    lease_count: u64,
    r: Sent,
)
    requires
        old(t).wf(),
        old(s).wf(),
        call_ensures(
            send,
            (
                t,
                s,
                m,
                target,
                operation,
                out,
                out_len,
                reply_buf,
                reply_cap,
                lease_table,
                lease_count,
            ),
            r,
        ),
    ensures
        r is Done ==> *final(t) == *old(t) && *final(s) == *old(s) && *final(m) == *old(m),
        ({
            let me = old(s).current as int;
            let all = old(s).tasks@;
            let root = root_at(all, me);
            let invalid = out_len > 256 || reply_cap > 256 || lease_count > 4 || target >= 8
                || target == me;
            let dead = !invalid && !(tasks::in_state(all, target as int, State::Runnable)
                || tasks::in_state(all, target as int, State::Blocked));
            let bytes = user_bytes(*old(m), root, lease_table, 24 * lease_count);
            let owns = {
                &&& tasks::root_of(all, me) is Some
                &&& paging::user_may(*old(m), root, out, out_len, false)
                &&& paging::user_may(*old(m), root, reply_buf, reply_cap, true)
                &&& paging::user_may(*old(m), root, lease_table, (24 * lease_count) as u64, false)
                &&& forall|i: int, lease: Lease|
                    0 <= i < lease_count && #[trigger] says(bytes, i, lease) ==> {
                        &&& paging::user_may(*old(m), root, lease.base, lease.len, false)
                        &&& lease.writable ==> paging::user_may(
                            *old(m),
                            root,
                            lease.base,
                            lease.len,
                            true,
                        )
                    }
            };
            &&& r == (Sent::Done { rc: 0xffff_ffff_ffff_ffff, len: 0 }) <==> invalid
            &&& r == (Sent::Done { rc: 0xffff_ffff_ffff_fffd, len: 0 }) <==> dead
            &&& !invalid && !dead && !owns ==> r == (Sent::Done {
                rc: 0xffff_ffff_ffff_fffe,
                len: 0,
            })
            &&& !invalid && !dead && owns && !(old(t).pending@[target as int] matches Some(
                Pending::RecvWait { .. },
            )) ==> r == Sent::Wait
            &&& r is Done ==> r == (Sent::Done { rc: 0xffff_ffff_ffff_ffff, len: 0 }) || r == (
            Sent::Done { rc: 0xffff_ffff_ffff_fffe, len: 0 }) || r == (Sent::Done {
                rc: 0xffff_ffff_ffff_fffd,
                len: 0,
            })
        }),
{
    let me = old(s).current as int;
    let root = root_at(old(s).tasks@, me);
    let bytes = user_bytes(*old(m), root, lease_table, 24 * lease_count);
    assert forall|i: int, lease: Lease| #[trigger] says(bytes, i, lease) implies lease == lease_at(
        bytes,
        i,
    ) by {
        lemma_lease_says(bytes, i);
    }
    assert forall|i: int| 0 <= i < lease_count implies says(
        bytes,
        i,
        #[trigger] lease_at(bytes, i),
    ) by {
        lemma_lease_says(bytes, i);
    }
}

/// Has slot `i` a message for `me` that has not been picked up?
pub open spec fn queued_for(pending: Seq<Option<Pending>>, i: int, me: int) -> bool {
    &&& 0 <= i < pending.len()
    &&& pending[i] matches Some(Pending::SendWait(message)) && message.target == me
}

/// How much of the message in slot `i` fits in `cap` bytes.
pub open spec fn fitting(pending: Seq<Option<Pending>>, i: int, cap: u64) -> u64 {
    let len = pending[i]->0->SendWait_0.out_len;
    if len <= cap {
        len
    } else {
        cap
    }
}

/// The sender in slot `i` was told that its bytes, or the receiver's buffer,
/// cannot be used, and let go; and that was so.
pub open spec fn turned_away(
    m: Memory,
    pending: Seq<Option<Pending>>,
    tasks: Seq<Option<Task>>,
    me: int,
    buf: u64,
    cap: u64,
    pending2: Seq<Option<Pending>>,
    outcome2: Seq<Outcome>,
    tasks2: Seq<Option<Task>>,
    i: int,
) -> bool {
    let len = fitting(pending, i, cap);
    &&& pending2[i] is None
    &&& outcome2[i] == (Outcome { a: 0xffff_ffff_ffff_fffe, b: 0, c: 0 })
    &&& tasks::in_state(tasks, i, State::Blocked) ==> tasks::in_state(tasks2, i, State::Runnable)
    &&& len > 0
    &&& tasks::root_of(tasks, i) is None || tasks::root_of(tasks, me) is None || !paging::user_may(
        m,
        root_at(tasks, i),
        pending[i]->0->SendWait_0.out,
        len,
        false,
    ) || !paging::user_may(m, root_at(tasks, me), buf, len, true)
}

/// Waking somebody changes nobody's memory and nobody's rank.
proof fn lemma_woken_is_the_same(tasks: Seq<Option<Task>>, i: int, j: int)
    requires
        0 <= i < tasks.len(),
    ensures
        tasks::woken_table(tasks, i).len() == tasks.len(),
        tasks::root_of(tasks::woken_table(tasks, i), j) == tasks::root_of(tasks, j),
        0 <= j < tasks.len() ==> {
            let woken = tasks::woken_table(tasks, i);
            &&& woken[j] is Some == tasks[j] is Some
            &&& tasks[j] is Some ==> woken[j]->0.priority == tasks[j]->0.priority
            &&& j != i ==> woken[j] == tasks[j]
        },
{
}

/// Working through the queue serves the most urgent sender whose bytes can be
/// moved, turns away those before it, and touches nobody else.
#[verifier::spinoff_prover]
#[verifier::rlimit(40)]
pub proof fn lemma_serve(
    m: Memory,
    pending: Seq<Option<Pending>>,
    outcome: Seq<Outcome>,
    tasks: Seq<Option<Task>>,
    me: int,
    buf: u64,
    cap: u64,
    j: int,
)
    requires
        pending.len() == 8,
        outcome.len() == 8,
        tasks.len() == 8,
        0 <= me < 8,
        0 <= j < 8,
        !queued_for(pending, me, me),
    ensures
        ({
            let v = serve(m, pending, outcome, tasks, me, buf, cap);
            let turned = turned_away(
                m,
                pending,
                tasks,
                me,
                buf,
                cap,
                v.pending,
                v.outcome,
                v.tasks,
                j,
            );
            &&& v.pending.len() == 8 && v.outcome.len() == 8 && v.tasks.len() == 8
            &&& !queued_for(pending, j, me) && j != me ==> {
                &&& v.pending[j] == pending[j]
                &&& v.outcome[j] == outcome[j]
                &&& v.tasks[j] == tasks[j]
            }
            &&& v.tasks[me] is Some == tasks[me] is Some
            &&& match v.result {
                Received::Done { a, b, c } => {
                    let i = a as int;
                    &&& a < 8 && a != me
                    &&& queued_for(pending, i, me)
                    &&& tasks[i] is Some
                    &&& b == pending[i]->0->SendWait_0.operation
                    &&& c == fitting(pending, i, cap)
                    &&& v.pending[i] == Some(Pending::ReplyWait(pending[i]->0->SendWait_0))
                    &&& v.tasks[i] == tasks[i]
                    &&& v.outcome[i] == outcome[i]
                    &&& v.pending[me] == pending[me]
                    &&& v.tasks[me] == tasks[me]
                    &&& deliverable(m, tasks, i, pending[i]->0->SendWait_0.out, me, buf, c)
                    &&& queued_for(pending, j, me) && tasks[j] is Some && j != i && !turned ==> {
                        let (p, q) = (tasks[i]->0.priority.0, tasks[j]->0.priority.0);
                        p < q || p == q && i < j
                    }
                },
                Received::Wait => {
                    &&& v.pending[me] == Some(Pending::RecvWait { buf, cap })
                    &&& tasks[me] is Some ==> tasks::in_state(v.tasks, me, State::Blocked)
                    &&& queued_for(pending, j, me) && tasks[j] is Some ==> turned
                },
                Received::Again => {
                    &&& v.pending[me] == pending[me]
                    &&& v.tasks[me] == tasks[me]
                    &&& exists|i: int|
                        #![trigger turned_away(
                            m,
                            pending,
                            tasks,
                            me,
                            buf,
                            cap,
                            v.pending,
                            v.outcome,
                            v.tasks,
                            i,
                        )]
                        {
                            &&& 0 <= i < 8
                            &&& turned_away(
                                m,
                                pending,
                                tasks,
                                me,
                                buf,
                                cap,
                                v.pending,
                                v.outcome,
                                v.tasks,
                                i,
                            )
                            &&& tasks[i] is Some && tasks[me] is Some
                            &&& tasks[i]->0.priority.0 < tasks[me]->0.priority.0
                        }
                },
            }
        }),
    decreases queue_len(pending, tasks, me, 8),
{
    if exists|i: int| #[trigger] is_best_sender(pending, tasks, i, me) && i < 8 {
        let i = choose|i: int| #[trigger] is_best_sender(pending, tasks, i, me) && i < 8;
        let message = pending[i]->0->SendWait_0;
        let len = least(message.out_len, cap);
        assert(sends_to(pending, tasks, i, me));
        if queued_for(pending, j, me) && tasks[j] is Some {
            assert(sends_to(pending, tasks, j, me));
        }
        if !deliverable(m, tasks, i, message.out, me, buf, len) {
            let woken = tasks::woken_table(tasks, i);
            let turned = pending.update(i, None);
            let told = outcome.update(i, Outcome { a: EFAULT, b: 0, c: 0 });
            lemma_queue_shrinks(pending, tasks, me, i, 8);
            lemma_woken_is_the_same(tasks, i, j);
            lemma_woken_is_the_same(tasks, i, me);
            let v = serve(m, pending, outcome, tasks, me, buf, cap);
            if tasks::wakes_above(tasks, me, i) {
                assert(turned_away(
                    m,
                    pending,
                    tasks,
                    me,
                    buf,
                    cap,
                    v.pending,
                    v.outcome,
                    v.tasks,
                    i,
                ));
            } else {
                lemma_serve(m, turned, told, woken, me, buf, cap, j);
                lemma_serve(m, turned, told, woken, me, buf, cap, i);
                match v.result {
                    Received::Done { a, b, c } => {
                        lemma_woken_is_the_same(tasks, i, a as int);
                    },
                    Received::Wait => {},
                    Received::Again => {
                        let x = choose|x: int|
                            #![trigger turned_away(
                                m,
                                turned,
                                woken,
                                me,
                                buf,
                                cap,
                                v.pending,
                                v.outcome,
                                v.tasks,
                                x,
                            )]
                            {
                                &&& 0 <= x < 8
                                &&& turned_away(
                                    m,
                                    turned,
                                    woken,
                                    me,
                                    buf,
                                    cap,
                                    v.pending,
                                    v.outcome,
                                    v.tasks,
                                    x,
                                )
                                &&& woken[x] is Some && woken[me] is Some
                                &&& woken[x]->0.priority.0 < woken[me]->0.priority.0
                            };
                        lemma_woken_is_the_same(tasks, i, x);
                        assert(turned_away(
                            m,
                            pending,
                            tasks,
                            me,
                            buf,
                            cap,
                            v.pending,
                            v.outcome,
                            v.tasks,
                            x,
                        ));
                    },
                }
            }
        }
    } else {
        lemma_no_best(pending, tasks, me, j);
    }
}

/// Where nobody is the best sender, nobody is a sender.
proof fn lemma_no_best(
    pending: Seq<Option<Pending>>,
    tasks: Seq<Option<Task>>,
    me: int,
    j: int,
)
    requires
        pending.len() == 8,
        tasks.len() == 8,
        forall|i: int| !(#[trigger] is_best_sender(pending, tasks, i, me) && i < 8),
    ensures
        !sends_to(pending, tasks, j, me),
        queued_for(pending, j, me) ==> tasks[j] is None,
{
    if sends_to(pending, tasks, j, me) {
        let best = lemma_best_below(pending, tasks, me, j, 8);
    }
    if queued_for(pending, j, me) && tasks[j] is Some {
        assert(sends_to(pending, tasks, j, me));
    }
}

/// The best of the senders in slots below `n`.
proof fn lemma_best_below(
    pending: Seq<Option<Pending>>,
    tasks: Seq<Option<Task>>,
    me: int,
    j: int,
    n: int,
) -> (best: int)
    requires
        0 <= j < n <= 8,
        sends_to(pending, tasks, j, me),
        pending.len() == 8,
        tasks.len() == 8,
    ensures
        0 <= best < n,
        sends_to(pending, tasks, best, me),
        forall|i: int|
            #![trigger sends_to(pending, tasks, i, me)]
            sends_to(pending, tasks, i, me) && i < n && i != best ==> {
                let (p, q) = (tasks[best]->0.priority, tasks[i]->0.priority);
                p.above(q) || p == q && best < i
            },
        n == 8 ==> is_best_sender(pending, tasks, best, me),
    decreases n,
{
    let last = n - 1;
    if exists|i: int| 0 <= i < last && #[trigger] sends_to(pending, tasks, i, me) {
        let i = choose|i: int| 0 <= i < last && #[trigger] sends_to(pending, tasks, i, me);
        let before = lemma_best_below(pending, tasks, me, i, last);
        if sends_to(pending, tasks, last, me) && tasks[last]->0.priority.above(
            tasks[before]->0.priority,
        ) {
            last
        } else {
            before
        }
    } else {
        last
    }
}

/// A receive that brings a message brings it whole: who sent it, what it asks
/// for, how much of it fitted, and the bytes, where the receiver asked for
/// them. Its sender goes on waiting, for the reply now, and what it lent is
/// still lent. Nobody more urgent was passed over, but for senders that were
/// turned away because the bytes could not be moved.
pub proof fn lemma_most_urgent_message_arrives(
    t: &mut Table,
    n: &mut Notifications,
    s: &mut Scheduler,
    m: &mut Memory,
    buf: u64,
    cap: u64,
    mask: u32,
    a: u64,
    b: u64,
    c: u64,
    j: int,
)
    requires
        old(t).wf(),
        old(n).wf(),
        old(s).wf(),
        tasks::isolated(*old(m), old(s).tasks@),
        call_ensures(recv, (t, n, s, m, buf, cap, mask), Received::Done { a, b, c }),
        a < 8,
        0 <= j < 8,
    ensures
        ({
            let (me, i) = (old(s).current as int, a as int);
            let all = old(s).tasks@;
            let message = old(t).pending@[i]->0->SendWait_0;
            &&& a != me
            &&& queued_for(old(t).pending@, i, me)
            &&& b == message.operation
            &&& c == fitting(old(t).pending@, i, cap)
            &&& final(t).pending@[i] == Some(Pending::ReplyWait(message))
            &&& final(t).leases@ == old(t).leases@
            &&& user_bytes(*final(m), root_at(all, me), buf, c as int) == user_bytes(
                *old(m),
                root_at(all, i),
                message.out,
                c as int,
            )
            &&& final(s).tasks@[me] == all[me]
            &&& final(s).tasks@[i] == all[i]
            &&& old(n).posted@[me] & mask == 0
            &&& final(n).posted@ == old(n).posted@
            &&& queued_for(old(t).pending@, j, me) && all[j] is Some && j != i ==> turned_away(
                *old(m),
                old(t).pending@,
                all,
                me,
                buf,
                cap,
                final(t).pending@,
                final(t).outcome@,
                final(s).tasks@,
                j,
            ) || all[i]->0.priority.0 < all[j]->0.priority.0 || all[i]->0.priority
                == all[j]->0.priority && i < j
            &&& !queued_for(old(t).pending@, j, me) && j != me ==> {
                &&& final(t).pending@[j] == old(t).pending@[j]
                &&& final(t).outcome@[j] == old(t).outcome@[j]
                &&& final(s).tasks@[j] == all[j]
            }
        }),
{
    let me = old(s).current as int;
    assert(pending_ok(old(t).pending@[me], me));
    lemma_serve(*old(m), old(t).pending@, old(t).outcome@, old(s).tasks@, me, buf, cap, j);
    lemma_message_arrives(
        *old(m),
        *final(m),
        old(s).tasks@,
        a as int,
        old(t).pending@[a as int]->0->SendWait_0.out,
        me,
        buf,
        c,
    );
}

/// A receive that has to wait leaves its task blocked on the buffer and the
/// notifications it asked for, and leaves nobody in the queue: whoever had a
/// message for it was turned away, for a reason.
pub proof fn lemma_waits_only_when_nothing_is_there(
    t: &mut Table,
    n: &mut Notifications,
    s: &mut Scheduler,
    m: &mut Memory,
    buf: u64,
    cap: u64,
    mask: u32,
    j: int,
)
    requires
        old(t).wf(),
        old(n).wf(),
        old(s).wf(),
        call_ensures(recv, (t, n, s, m, buf, cap, mask), Received::Wait),
        0 <= j < 8,
    ensures
        ({
            let me = old(s).current as int;
            &&& tasks::in_state(final(s).tasks@, me, State::Blocked)
            &&& final(t).pending@[me] == Some(Pending::RecvWait { buf, cap })
            &&& old(n).posted@[me] & mask == 0
            &&& final(n).wanted@[me] == mask
            &&& final(n).posted@ == old(n).posted@
            &&& j != me ==> final(n).wanted@[j] == old(n).wanted@[j]
            &&& *final(m) == *old(m)
            &&& final(t).leases@ == old(t).leases@
            &&& queued_for(old(t).pending@, j, me) && old(s).tasks@[j] is Some ==> turned_away(
                *old(m),
                old(t).pending@,
                old(s).tasks@,
                me,
                buf,
                cap,
                final(t).pending@,
                final(t).outcome@,
                final(s).tasks@,
                j,
            )
        }),
{
    let me = old(s).current as int;
    assert(pending_ok(old(t).pending@[me], me));
    lemma_serve(*old(m), old(t).pending@, old(t).outcome@, old(s).tasks@, me, buf, cap, j);
}

/// A receive gives up the CPU before it is done only to somebody it has just
/// turned away, who is more urgent than it is.
pub proof fn lemma_gives_way_to_the_urgent(
    t: &mut Table,
    n: &mut Notifications,
    s: &mut Scheduler,
    m: &mut Memory,
    buf: u64,
    cap: u64,
    mask: u32,
)
    requires
        old(t).wf(),
        old(n).wf(),
        old(s).wf(),
        call_ensures(recv, (t, n, s, m, buf, cap, mask), Received::Again),
    ensures
        *final(m) == *old(m),
        final(s).tasks@[old(s).current as int] == old(s).tasks@[old(s).current as int],
        final(t).pending@[old(s).current as int] == old(t).pending@[old(s).current as int],
        exists|i: int|
            {
                &&& 0 <= i < 8
                &&& (#[trigger] old(s).tasks@[i]) is Some
                &&& old(s).tasks@[old(s).current as int] is Some
                &&& old(s).tasks@[i]->0.priority.0 < old(s).tasks@[old(
                    s,
                ).current as int]->0.priority.0
                &&& final(t).pending@[i] is None
                &&& final(t).outcome@[i].a == 0xffff_ffff_ffff_fffe
            },
{
    let me = old(s).current as int;
    let (p, o, all) = (old(t).pending@, old(t).outcome@, old(s).tasks@);
    assert(pending_ok(old(t).pending@[me], me));
    lemma_serve(*old(m), p, o, all, me, buf, cap, me);
    let v = serve(*old(m), p, o, all, me, buf, cap);
    let x = choose|x: int|
        #![trigger turned_away(*old(m), p, all, me, buf, cap, v.pending, v.outcome, v.tasks, x)]
        {
            &&& 0 <= x < 8
            &&& turned_away(*old(m), p, all, me, buf, cap, v.pending, v.outcome, v.tasks, x)
            &&& all[x] is Some && all[me] is Some
            &&& all[x]->0.priority.0 < all[me]->0.priority.0
        };
    assert(old(s).tasks@[x] is Some);
}

/// Notifications come before messages: whatever of the mask has been posted is
/// collected at once, exactly that is cleared, and no message is touched.
pub proof fn lemma_notifications_come_first(
    t: &mut Table,
    n: &mut Notifications,
    s: &mut Scheduler,
    m: &mut Memory,
    buf: u64,
    cap: u64,
    mask: u32,
    r: Received,
)
    requires
        old(t).wf(),
        old(n).wf(),
        old(s).wf(),
        cap <= 256,
        tasks::root_of(old(s).tasks@, old(s).current as int) is Some,
        paging::user_may(
            *old(m),
            root_at(old(s).tasks@, old(s).current as int),
            buf,
            cap,
            true,
        ),
        old(n).posted@[old(s).current as int] & mask != 0,
        call_ensures(recv, (t, n, s, m, buf, cap, mask), r),
    ensures
        ({
            let me = old(s).current as int;
            let (before, after) = (old(n).posted@[me], final(n).posted@[me]);
            &&& r == (Received::Done { a: 8, b: (before & mask) as u64, c: 0 })
            &&& after & mask == 0
            &&& after & !mask == before & !mask
            &&& forall|i: int|
                0 <= i < 8 && i != me ==> #[trigger] final(n).posted@[i] == old(n).posted@[i]
        }),
        *final(t) == *old(t),
        *final(s) == *old(s),
        *final(m) == *old(m),
{
    let p = old(n).posted@[old(s).current as int];
    assert((p & !(p & mask)) & mask == 0 && (p & !(p & mask)) & !mask == p & !mask)
        by (bit_vector);
}

/// A receive is refused if its buffer is too long, or is memory that the
/// receiver may not write to; and a refused receive changes nothing.
pub proof fn lemma_receive_is_refused_for_a_reason(
    t: &mut Table,
    n: &mut Notifications,
    s: &mut Scheduler,
    m: &mut Memory,
    buf: u64,
    cap: u64,
    mask: u32,
    r: Received,
)
    requires
        old(t).wf(),
        old(n).wf(),
        old(s).wf(),
        call_ensures(recv, (t, n, s, m, buf, cap, mask), r),
    ensures
        ({
            let me = old(s).current as int;
            let may = tasks::root_of(old(s).tasks@, me) is Some && paging::user_may(
                *old(m),
                root_at(old(s).tasks@, me),
                buf,
                cap,
                true,
            );
            let refused = cap > 256 || !may;
            &&& cap > 256 ==> r == (Received::Done { a: 0xffff_ffff_ffff_ffff, b: 0, c: 0 })
            &&& cap <= 256 && !may ==> r == (Received::Done {
                a: 0xffff_ffff_ffff_fffe,
                b: 0,
                c: 0,
            })
            &&& refused ==> *final(t) == *old(t) && *final(n) == *old(n) && *final(s) == *old(s)
                && *final(m) == *old(m)
            &&& !refused ==> !(r matches Received::Done { a, .. } && a > 8)
        }),
{
    let me = old(s).current as int;
    assert(pending_ok(old(t).pending@[me], me));
    lemma_serve(*old(m), old(t).pending@, old(t).outcome@, old(s).tasks@, me, buf, cap, me);
}

/// A reply answers the message it is for: the sender finds the result and as
/// much of the answer as it asked for, waits for nothing any more, and is back
/// in the running; it has the CPU next if it is more urgent.
pub proof fn lemma_reply_answers(
    t: &mut Table,
    s: &mut Scheduler,
    m: &mut Memory,
    sender: u64,
    rc: u64,
    data: u64,
    data_len: u64,
    r: (u64, bool),
    message: Message,
    len: u64,
)
    requires
        old(t).wf(),
        old(s).wf(),
        tasks::isolated(*old(m), old(s).tasks@),
        sender < 8,
        old(t).pending@[sender as int] == Some(Pending::ReplyWait(message)),
        message.target == old(s).current,
        data_len <= 256,
        len <= data_len && len <= message.reply_cap,
        len == data_len || len == message.reply_cap,
        len > 0 ==> {
            let (me, to) = (old(s).current as int, sender as int);
            &&& tasks::root_of(old(s).tasks@, me) is Some
            &&& tasks::root_of(old(s).tasks@, to) is Some
            &&& paging::user_may(*old(m), root_at(old(s).tasks@, me), data, len, false)
            &&& paging::user_may(
                *old(m),
                root_at(old(s).tasks@, to),
                message.reply_buf,
                len,
                true,
            )
        },
        call_ensures(reply, (t, s, m, sender, rc, data, data_len), r),
    ensures
        ({
            let (me, to) = (old(s).current as int, sender as int);
            let all = old(s).tasks@;
            &&& r.0 == 0
            &&& r.1 <==> tasks::in_state(all, to, State::Blocked) && all[me] is Some
                && all[to]->0.priority.0 < all[me]->0.priority.0
            &&& final(t).outcome@[to] == (Outcome { a: rc, b: len, c: 0 })
            &&& final(t).pending@[to] is None
            &&& tasks::in_state(all, to, State::Blocked) ==> tasks::in_state(
                final(s).tasks@,
                to,
                State::Runnable,
            )
            &&& user_bytes(*final(m), root_at(all, to), message.reply_buf, len as int)
                == user_bytes(*old(m), root_at(all, me), data, len as int)
            &&& forall|i: int|
                0 <= i < 8 && i != to ==> {
                    &&& #[trigger] final(t).pending@[i] == old(t).pending@[i]
                    &&& final(t).outcome@[i] == old(t).outcome@[i]
                    &&& final(s).tasks@[i] == all[i]
                }
            &&& forall|i: int|
                0 <= i < 8 && i != to && tasks::root_of(all, i) is Some ==> #[trigger] undisturbed(
                    *old(m),
                    *final(m),
                    all,
                    i,
                )
        }),
{
    let (me, to) = (old(s).current as int, sender as int);
    assert(deliverable(*old(m), old(s).tasks@, me, data, to, message.reply_buf, len));
    lemma_message_arrives(
        *old(m),
        *final(m),
        old(s).tasks@,
        me,
        data,
        to,
        message.reply_buf,
        len,
    );
}

/// Only the task that holds a message may answer it, and only at a length that
/// can be copied: any other reply is invalid. One whose bytes cannot be moved
/// is a fault. Neither changes anything.
pub proof fn lemma_reply_is_refused_for_a_reason(
    t: &mut Table,
    s: &mut Scheduler,
    m: &mut Memory,
    sender: u64,
    rc: u64,
    data: u64,
    data_len: u64,
    r: (u64, bool),
)
    requires
        old(t).wf(),
        old(s).wf(),
        call_ensures(reply, (t, s, m, sender, rc, data, data_len), r),
    ensures
        ({
            let holds = sender < 8 && (old(t).pending@[sender as int] matches Some(
                Pending::ReplyWait(message),
            ) && message.target == old(s).current);
            &&& r.0 == 0xffff_ffff_ffff_ffff <==> data_len > 256 || !holds
            &&& r.0 == 0 || r.0 == 0xffff_ffff_ffff_fffe || r.0 == 0xffff_ffff_ffff_ffff
        }),
        r.0 != 0 ==> !r.1 && *final(t) == *old(t) && *final(s) == *old(s) && *final(m) == *old(m),
{
}

/// A task that is gone for good keeps nobody waiting: whoever had sent to it,
/// picked up or not, is told that it is dead and put back in the running, and
/// everybody else goes on as before.
pub proof fn lemma_gone_keeps_nobody_waiting(
    t: &mut Table,
    s: &mut Scheduler,
    gone: TaskId,
    i: int,
)
    requires
        old(t).wf(),
        old(s).wf(),
        gone.0 < 8,
        0 <= i < 8,
        call_ensures(abandon, (t, s, gone), ()),
    ensures
        ({
            let stuck = i != gone.0 && match old(t).pending@[i] {
                Some(Pending::SendWait(message)) => message.target == gone.0,
                Some(Pending::ReplyWait(message)) => message.target == gone.0,
                _ => false,
            };
            &&& stuck ==> {
                &&& final(t).pending@[i] is None
                &&& final(t).outcome@[i] == (Outcome { a: 0xffff_ffff_ffff_fffd, b: 0, c: 0 })
                &&& tasks::in_state(old(s).tasks@, i, State::Blocked) ==> tasks::in_state(
                    final(s).tasks@,
                    i,
                    State::Runnable,
                )
            }
            &&& !stuck ==> {
                &&& i != gone.0 ==> final(t).pending@[i] == old(t).pending@[i]
                &&& final(t).outcome@[i] == old(t).outcome@[i]
                &&& final(s).tasks@[i] == old(s).tasks@[i]
            }
        }),
        final(t).pending@[gone.0 as int] is None,
        final(s).current == old(s).current,
{
}

/// An outcome is collected once, by the task it is for.
pub proof fn lemma_outcome_is_collected_once(
    t: &mut Table,
    me: TaskId,
    first: Outcome,
    t2: &mut Table,
    again: Outcome,
    i: int,
)
    requires
        old(t).wf(),
        me.0 < 8,
        0 <= i < 8,
        call_ensures(collect, (t, me), first),
        *old(t2) == *final(t),
        call_ensures(collect, (t2, me), again),
    ensures
        first == old(t).outcome@[me.0 as int],
        again == (Outcome { a: 0, b: 0, c: 0 }),
        i != me.0 ==> final(t2).outcome@[i] == old(t).outcome@[i],
        final(t2).pending@ == old(t).pending@,
        final(t2).leases@ == old(t).leases@,
{
}

/// A receiver that has been woken gets the message that was delivered to it;
/// one that no message was delivered to gets the notifications it was woken
/// for, and waits for nothing any more. Either way it is disarmed.
pub proof fn lemma_woken_receiver_gets_its_due(
    t: &mut Table,
    n: &mut Notifications,
    me: TaskId,
    mask: u32,
    r: Outcome,
)
    requires
        old(t).wf(),
        old(n).wf(),
        me.0 < 8,
        call_ensures(collect_received, (t, n, me, mask), r),
    ensures
        ({
            let i = me.0 as int;
            let undelivered = old(t).pending@[i] matches Some(Pending::RecvWait { .. });
            &&& undelivered ==> {
                &&& r == (Outcome { a: 8, b: (old(n).posted@[i] & mask) as u64, c: 0 })
                &&& final(t).pending@[i] is None
                &&& final(n).posted@[i] & mask == 0
                &&& final(n).posted@[i] & !mask == old(n).posted@[i] & !mask
            }
            &&& !undelivered ==> {
                &&& r == old(t).outcome@[i]
                &&& final(t).outcome@[i] == (Outcome { a: 0, b: 0, c: 0 })
                &&& final(n).posted@ == old(n).posted@
            }
            &&& final(n).wanted@[i] == 0
            &&& forall|j: int|
                0 <= j < 8 && j != i ==> {
                    &&& #[trigger] final(t).pending@[j] == old(t).pending@[j]
                    &&& final(t).outcome@[j] == old(t).outcome@[j]
                    &&& final(n).posted@[j] == old(n).posted@[j]
                    &&& final(n).wanted@[j] == old(n).wanted@[j]
                }
        }),
{
    let p = old(n).posted@[me.0 as int];
    assert((p & !(p & mask)) & mask == 0 && (p & !(p & mask)) & !mask == p & !mask)
        by (bit_vector);
}

/// May the borrower move `len` bytes at `offset` of region `index` that
/// `lender` lent it? Its own buffer, and the lent region, have to be memory
/// that the two of them could use themselves.
pub open spec fn within_reach(
    t: &Table,
    m: Memory,
    tasks: Seq<Option<Task>>,
    me: int,
    lender: u64,
    index: u64,
    offset: u64,
    buf: u64,
    len: u64,
    write: bool,
) -> bool {
    let lease = t.leases@[lender as int]@[index as int];
    &&& lender < 8
    &&& len <= 4096
    &&& t.pending@[lender as int] matches Some(Pending::ReplyWait(message)) && message.target == me
    &&& index < t.leases@[lender as int]@.len()
    &&& write ==> lease.writable
    &&& !write ==> lease.readable
    &&& offset + len <= lease.len
    &&& tasks::root_of(tasks, me) is Some
    &&& tasks::root_of(tasks, lender as int) is Some
    &&& paging::user_may(m, root_at(tasks, me), buf, len, !write)
    &&& paging::user_may(m, root_at(tasks, lender as int), lease.base, lease.len, false)
}

/// Every byte of a lent region that its lender could read is mapped.
pub proof fn lemma_region_mapped(
    m: Memory,
    tasks: Seq<Option<Task>>,
    lender: int,
    lease: Lease,
    offset: u64,
    len: u64,
)
    requires
        tasks::isolated(m, tasks),
        tasks::root_of(tasks, lender) is Some,
        offset + len <= lease.len,
        lease.base + lease.len <= u64::MAX,
        paging::user_may(m, root_at(tasks, lender), lease.base, lease.len, false),
    ensures
        forall|k: int|
            0 <= k < len ==> #[trigger] paging::byte_of(
                m,
                root_at(tasks, lender),
                (lease.base + offset) as u64,
                k,
            ) is Some,
{
    let root = root_at(tasks, lender);
    assert(tasks::sound_task(m, tasks[lender]));
    if len > 0 {
        lemma_mapped(m, root, lease.base, lease.len, false);
        assert forall|k: int| 0 <= k < len implies #[trigger] paging::byte_of(
            m,
            root,
            (lease.base + offset) as u64,
            k,
        ) is Some by {
            assert(paging::byte_of(m, root, lease.base, offset + k) is Some);
        }
    }
}

/// Reading a lent region works: the borrower's buffer holds what the lender
/// has there, and nobody's memory but the borrower's has changed.
pub proof fn lemma_lent_region_is_read(
    t: Table,
    s: Scheduler,
    m: &mut Memory,
    lender: u64,
    index: u64,
    offset: u64,
    buf: u64,
    len: u64,
    r: u64,
)
    requires
        t.wf(),
        s.wf(),
        tasks::isolated(*old(m), s.tasks@),
        within_reach(
            &t,
            *old(m),
            s.tasks@,
            s.current as int,
            lender,
            index,
            offset,
            buf,
            len,
            false,
        ),
        call_ensures(borrow_read, (&t, &s, m, lender, index, offset, buf, len), r),
    ensures
        r == 0,
        user_bytes(*final(m), root_at(s.tasks@, s.current as int), buf, len as int) == user_bytes(
            *old(m),
            root_at(s.tasks@, lender as int),
            (t.leases@[lender as int]@[index as int].base + offset) as u64,
            len as int,
        ),
        forall|i: int|
            0 <= i < 8 && i != s.current && tasks::root_of(s.tasks@, i) is Some
                ==> #[trigger] undisturbed(*old(m), *final(m), s.tasks@, i),
{
    let lease = t.leases@[lender as int]@[index as int];
    lemma_region_mapped(*old(m), s.tasks@, lender as int, lease, offset, len);
    lemma_borrow_moves(&t, &s, old(m), lender, index, offset, buf, len, false, final(m));
}

/// Writing a lent region works: the lender finds there what the borrower has in
/// its buffer, and nobody's memory but the lender's has changed.
pub proof fn lemma_lent_region_is_written(
    t: Table,
    s: Scheduler,
    m: &mut Memory,
    lender: u64,
    index: u64,
    offset: u64,
    buf: u64,
    len: u64,
    r: u64,
)
    requires
        t.wf(),
        s.wf(),
        tasks::isolated(*old(m), s.tasks@),
        within_reach(
            &t,
            *old(m),
            s.tasks@,
            s.current as int,
            lender,
            index,
            offset,
            buf,
            len,
            true,
        ),
        call_ensures(borrow_write, (&t, &s, m, lender, index, offset, buf, len), r),
    ensures
        r == 0,
        user_bytes(
            *final(m),
            root_at(s.tasks@, lender as int),
            (t.leases@[lender as int]@[index as int].base + offset) as u64,
            len as int,
        ) == user_bytes(*old(m), root_at(s.tasks@, s.current as int), buf, len as int),
        forall|i: int|
            0 <= i < 8 && i != lender && tasks::root_of(s.tasks@, i) is Some
                ==> #[trigger] undisturbed(*old(m), *final(m), s.tasks@, i),
{
    let lease = t.leases@[lender as int]@[index as int];
    lemma_region_mapped(*old(m), s.tasks@, lender as int, lease, offset, len);
    lemma_borrow_moves(&t, &s, old(m), lender, index, offset, buf, len, true, final(m));
}

/// A borrow is refused for a reason. It is invalid unless it names a region
/// that a task lent with a message the borrower holds and has not answered; it
/// is a fault to go against the direction of the region or outside it. Nothing
/// has moved then.
pub proof fn lemma_borrow_is_refused_for_a_reason(
    t: Table,
    s: Scheduler,
    m: &mut Memory,
    lender: u64,
    index: u64,
    offset: u64,
    buf: u64,
    len: u64,
    r: u64,
    write: bool,
)
    requires
        t.wf(),
        s.wf(),
        tasks::isolated(*old(m), s.tasks@),
        write ==> call_ensures(borrow_write, (&t, &s, m, lender, index, offset, buf, len), r),
        !write ==> call_ensures(borrow_read, (&t, &s, m, lender, index, offset, buf, len), r),
    ensures
        ({
            let held = lender < 8 && (t.pending@[lender as int] matches Some(
                Pending::ReplyWait(message),
            ) && message.target == s.current);
            let named = held && index < t.leases@[lender as int]@.len();
            let lease = t.leases@[lender as int]@[index as int];
            let wrong = (if write {
                !lease.writable
            } else {
                !lease.readable
            }) || offset + len > lease.len;
            &&& r == 0xffff_ffff_ffff_ffff <==> len > 4096 || !named
            &&& len <= 4096 && named && wrong ==> r == 0xffff_ffff_ffff_fffe
            &&& len > 4096 || !named || wrong ==> *final(m) == *old(m)
            &&& r == 0 || r == 0xffff_ffff_ffff_ffff || r == 0xffff_ffff_ffff_fffe
        }),
{
}

/// A borrower has what it was lent, and the lender's side of it, as soon as it
/// holds the message, even if it was waiting before the message was sent:
/// reading a region it was lent to read gives it the bytes that the lender has
/// there.
pub proof fn lemma_lease_reaches_a_waiting_target(
    t: &mut Table,
    s: &mut Scheduler,
    m: &mut Memory,
    target: u64,
    operation: u64,
    out: u64,
    out_len: u64,
    reply_buf: u64,
    reply_cap: u64,
    lease_table: u64,
    lease_count: u64,
    s2: Scheduler,
    m2: &mut Memory,
    index: u64,
    lease: Lease,
    offset: u64,
    buf: u64,
    len: u64,
    r: u64,
)
    requires
        old(t).wf(),
        old(s).wf(),
        tasks::isolated(*old(m), old(s).tasks@),
        target < 8,
        old(t).pending@[target as int] matches Some(Pending::RecvWait { .. }),
        call_ensures(
            send,
            (
                t,
                s,
                m,
                target,
                operation,
                out,
                out_len,
                reply_buf,
                reply_cap,
                lease_table,
                lease_count,
            ),
            Sent::Wait,
        ),
        index < lease_count,
        says(
            user_bytes(
                *old(m),
                root_at(old(s).tasks@, old(s).current as int),
                lease_table,
                24 * lease_count,
            ),
            index as int,
            lease,
        ),
        lease.readable,
        offset + len <= lease.len,
        len <= 4096,
        s2.wf(),
        s2.current == target,
        s2.tasks@ == final(s).tasks@,
        *old(m2) == *final(m),
        tasks::root_of(s2.tasks@, target as int) is Some,
        paging::user_may(*old(m2), root_at(s2.tasks@, target as int), buf, len, true),
        call_ensures(
            borrow_read,
            (&*final(t), &s2, m2, old(s).current as u64, index, offset, buf, len),
            r,
        ),
    ensures
        r == 0,
        user_bytes(*final(m2), root_at(s2.tasks@, target as int), buf, len as int) == user_bytes(
            *final(m),
            root_at(old(s).tasks@, old(s).current as int),
            (lease.base + offset) as u64,
            len as int,
        ),
{
    let me = old(s).current as int;
    let all = old(s).tasks@;
    let bytes = user_bytes(*old(m), root_at(all, me), lease_table, 24 * lease_count);
    lemma_lease_says(bytes, index as int);
    assert(lease == lease_at(bytes, index as int));
    assert(may_lend(*old(m), root_at(all, me), lease_at(bytes, index as int)));
    tasks::lemma_access_outlasts(
        *old(m),
        *final(m),
        all,
        final(s).tasks@,
        me,
        lease.base,
        lease.len,
        false,
    );
    lemma_lent_region_is_read(
        *final(t),
        s2,
        m2,
        me as u64,
        index,
        offset,
        buf,
        len,
        r,
    );
}

/// And so it has when the message came first: what was sent, and lent with it,
/// waits for the receive that picks it up, which leaves the lent regions as the
/// send recorded them and the message in the receiver's hands.
pub proof fn lemma_lease_waits_for_the_target(
    t: &mut Table,
    s: &mut Scheduler,
    m: &mut Memory,
    target: u64,
    operation: u64,
    out: u64,
    out_len: u64,
    reply_buf: u64,
    reply_cap: u64,
    lease_table: u64,
    lease_count: u64,
    t2: &mut Table,
    n2: &mut Notifications,
    s2: &mut Scheduler,
    m2: &mut Memory,
    buf: u64,
    cap: u64,
    mask: u32,
    b: u64,
    c: u64,
)
    requires
        old(t).wf(),
        old(s).wf(),
        tasks::isolated(*old(m), old(s).tasks@),
        target < 8,
        !(old(t).pending@[target as int] matches Some(Pending::RecvWait { .. })),
        call_ensures(
            send,
            (
                t,
                s,
                m,
                target,
                operation,
                out,
                out_len,
                reply_buf,
                reply_cap,
                lease_table,
                lease_count,
            ),
            Sent::Wait,
        ),
        *old(t2) == *final(t),
        *old(m2) == *final(m),
        old(n2).wf(),
        old(s2).wf(),
        old(s2).current == target,
        old(s2).tasks@ == final(s).tasks@,
        call_ensures(
            recv,
            (t2, n2, s2, m2, buf, cap, mask),
            Received::Done { a: old(s).current as u64, b, c },
        ),
    ensures
        ({
            let me = old(s).current as int;
            let bytes = user_bytes(
                *old(m),
                root_at(old(s).tasks@, me),
                lease_table,
                24 * lease_count,
            );
            &&& b == operation
            &&& final(t2).leases@[me]@.len() == lease_count
            &&& forall|i: int|
                0 <= i < lease_count ==> says(bytes, i, #[trigger] final(t2).leases@[me]@[i])
            &&& final(t2).pending@[me] == Some(
                Pending::ReplyWait(
                    Message {
                        target: target as usize,
                        operation,
                        out,
                        out_len,
                        reply_buf,
                        reply_cap,
                    },
                ),
            )
        }),
{
    let me = old(s).current as int;
    lemma_lent_is_what_was_asked(
        t,
        s,
        m,
        target,
        operation,
        out,
        out_len,
        reply_buf,
        reply_cap,
        lease_table,
        lease_count,
    );
    lemma_most_urgent_message_arrives(t2, n2, s2, m2, buf, cap, mask, me as u64, b, c, me);
}

/// A message that is sent goes into the buffer that waits for it, as much of it
/// as fits, and touches no other byte of memory; and of the scheduler nothing
/// changes but the tasks.
pub proof fn lemma_messages_touch_only_their_buffer(
    t: &mut Table,
    s: &mut Scheduler,
    m: &mut Memory,
    target: u64,
    operation: u64,
    out: u64,
    out_len: u64,
    reply_buf: u64,
    reply_cap: u64,
    lease_table: u64,
    lease_count: u64,
    r: Sent,
    buf: u64,
    cap: u64,
    pa: int,
)
    requires
        target < 8,
        old(t).pending@[target as int] == Some(Pending::RecvWait { buf, cap }),
        call_ensures(
            send,
            (
                t,
                s,
                m,
                target,
                operation,
                out,
                out_len,
                reply_buf,
                reply_cap,
                lease_table,
                lease_count,
            ),
            r,
        ),
        old(m).has(pa, 1),
        forall|k: int|
            0 <= k < out_len && k < cap ==> #[trigger] paging::byte_of(
                *old(m),
                root_at(old(s).tasks@, target as int),
                buf,
                k,
            ) != Some(pa),
    ensures
        final(m).byte_at(pa) == old(m).byte_at(pa),
        tasks::rest_kept(*old(s), *final(s)),
{
}

/// An answer likewise.
pub proof fn lemma_answers_touch_only_their_buffer(
    t: &mut Table,
    s: &mut Scheduler,
    m: &mut Memory,
    sender: u64,
    rc: u64,
    data: u64,
    data_len: u64,
    r: (u64, bool),
    message: Message,
    pa: int,
)
    requires
        sender < 8,
        old(t).pending@[sender as int] == Some(Pending::ReplyWait(message)),
        call_ensures(reply, (t, s, m, sender, rc, data, data_len), r),
        old(m).has(pa, 1),
        forall|k: int|
            0 <= k < data_len && k < message.reply_cap ==> #[trigger] paging::byte_of(
                *old(m),
                root_at(old(s).tasks@, sender as int),
                message.reply_buf,
                k,
            ) != Some(pa),
    ensures
        final(m).byte_at(pa) == old(m).byte_at(pa),
        tasks::rest_kept(*old(s), *final(s)),
{
}

/// And a message that is taken out of the queue.
pub proof fn lemma_received_touches_only_the_buffer(
    t: &mut Table,
    n: &mut Notifications,
    s: &mut Scheduler,
    m: &mut Memory,
    buf: u64,
    cap: u64,
    mask: u32,
    r: Received,
    pa: int,
)
    requires
        old(t).wf(),
        old(s).wf(),
        call_ensures(recv, (t, n, s, m, buf, cap, mask), r),
        old(m).has(pa, 1),
        forall|k: int|
            0 <= k < cap ==> #[trigger] paging::byte_of(
                *old(m),
                root_at(old(s).tasks@, old(s).current as int),
                buf,
                k,
            ) != Some(pa),
    ensures
        final(m).byte_at(pa) == old(m).byte_at(pa),
        tasks::rest_kept(*old(s), *final(s)),
{
    lemma_serve_fits(
        *old(m),
        old(t).pending@,
        old(t).outcome@,
        old(s).tasks@,
        old(s).current as int,
        buf,
        cap,
    );
}

proof fn lemma_serve_fits(
    m: Memory,
    pending: Seq<Option<Pending>>,
    outcome: Seq<Outcome>,
    tasks: Seq<Option<Task>>,
    me: int,
    buf: u64,
    cap: u64,
)
    ensures
        serve(m, pending, outcome, tasks, me, buf, cap).result matches Received::Done { a, b, c }
            ==> c <= cap,
    decreases queue_len(pending, tasks, me, 8),
{
    if exists|i: int| #[trigger] is_best_sender(pending, tasks, i, me) && i < 8 {
        let i = choose|i: int| #[trigger] is_best_sender(pending, tasks, i, me) && i < 8;
        lemma_queue_shrinks(pending, tasks, me, i, 8);
        lemma_serve_fits(
            m,
            pending.update(i, None),
            outcome.update(i, Outcome { a: EFAULT, b: 0, c: 0 }),
            tasks::woken_table(tasks, i),
            me,
            buf,
            cap,
        );
    }
}

} // verus!
