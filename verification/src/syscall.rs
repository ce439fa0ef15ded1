//! The system call interface: the only legitimate way for EL0 to ask for
//! anything.
//!
//! Every argument is a claim, not a fact. A user pointer is a number a task
//! chose, so every address that crosses this boundary is checked against the
//! caller's own page tables before it is touched.

use vstd::prelude::*;

use crate::exceptions::{Fault, TrapFrame};
use crate::ipc;
use crate::ipc::{Outcome, Received, Sent};
use crate::notify::Notifications;
use crate::paging;
use crate::tasks;
use crate::tasks::{Kernel, TaskId};
use crate::text;
use crate::uart;

verus! {

pub const SYS_EXIT: u64 = 0;

pub const SYS_WRITE: u64 = 1;

pub const SYS_YIELD: u64 = 2;

pub const SYS_GETPID: u64 = 3;

pub const SYS_SEND: u64 = 4;

pub const SYS_RECV: u64 = 5;

pub const SYS_REPLY: u64 = 6;

pub const SYS_BORROW_READ: u64 = 7;

pub const SYS_BORROW_WRITE: u64 = 8;

/// The largest write accepted in one call.
pub const MAX_WRITE: u64 = 4096;

/// What is left to do once a call has been dispatched.
#[derive(Debug)]
pub enum Next {
    /// Nothing: return to the caller.
    Return,
    /// Put these bytes on the console, and return to the caller.
    Print(Vec<u8>),
    /// The caller has exited. Give up the CPU, for good.
    Exit,
    /// Give up the CPU, and return to the caller when it is chosen again.
    Yield,
    /// Somebody more urgent has been woken: give it the CPU, and return to the
    /// caller when it is chosen again.
    Switch,
    /// The caller is waiting for a reply. Park it, then [`finish_send`].
    AwaitReply,
    /// The caller is waiting for a message. Park it, then [`finish_recv`].
    AwaitMessage,
    /// Somebody more urgent has been woken: give it the CPU, and dispatch the
    /// same call again when the caller is chosen again.
    Again,
}

/// The first three registers hold a result, and everything else is as it was.
pub open spec fn returned(before: &TrapFrame, after: &TrapFrame, a: u64, b: u64, c: u64) -> bool {
    &&& after.x@ == before.x@.update(0, a).update(1, b).update(2, c)
    &&& after.elr == before.elr
    &&& after.spsr == before.spsr
    &&& after.esr == before.esr
    &&& after.far == before.far
}

/// Hand a result to the caller. Every one of the three result registers is
/// written by every call, so that nothing stale is ever read back.
fn give(frame: &mut TrapFrame, a: u64, b: u64, c: u64)
    ensures
        returned(old(frame), final(frame), a, b, c),
{
    frame.x[0] = a;
    frame.x[1] = b;
    frame.x[2] = c;
}

/// Why a write is refused, if it is. A task with no address space has no
/// memory to write from, and one with an address space may only write from
/// what EL0 could have read in it.
pub open spec fn write_error(k: &Kernel, fd: u64, buf: u64, len: u64) -> Option<u64> {
    let me = k.scheduler.current as int;
    let all = k.scheduler.tasks@;
    if fd != 1 || len > MAX_WRITE {
        Some(ipc::EINVAL)
    } else if tasks::root_of(all, me) is None {
        Some(ipc::EFAULT)
    } else if !paging::user_may(k.memory, ipc::root_at(all, me), buf, len, false) {
        Some(ipc::EFAULT)
    } else if !vstd::utf8::valid_utf8(written(k, buf, len)) {
        Some(ipc::EINVAL)
    } else {
        None
    }
}

/// The bytes a write would put on the console.
pub open spec fn written(k: &Kernel, buf: u64, len: u64) -> Seq<u8> {
    ipc::user_bytes(
        k.memory,
        ipc::root_at(k.scheduler.tasks@, k.scheduler.current as int),
        buf,
        len as int,
    )
}

/// Check a write of `len` bytes from `buf` to the console. Returns what the
/// caller gets, and the bytes for the console if there are any.
fn sys_write(k: &Kernel, fd: u64, buf: u64, len: u64) -> (r: (u64, Option<Vec<u8>>))
    requires
        k.wf(),
    ensures
        match write_error(k, fd, buf, len) {
            Some(rc) => r.0 == rc && r.1 is None,
            None => r.0 == len && r.1 is Some && r.1->0@ == uart::crlf(written(k, buf, len)),
        },
{
    if fd != 1 {
        return (ipc::EINVAL, None);
    }
    if len > MAX_WRITE {
        return (ipc::EINVAL, None);
    }
    let ghost me = k.scheduler.current as int;
    let ghost all = k.scheduler.tasks@;
    let root = match tasks::current_space_root(&k.scheduler) {
        Some(root) => root,
        None => {
            return (ipc::EFAULT, None);
        },
    };
    proof {
        assert(tasks::sound_task(k.memory, all[me]));
        paging::lemma_sound(k.memory, root.0 as int);
        assert forall|q: int| #[trigger]
            paging::leaves(k.memory, root.0 as int, 0).contains(q) implies k.memory.has(
            q,
            4096,
        ) by {
            assert(tasks::claim(k.memory, all[me]).contains(q));
        }
    }
    // The check that matters: whether EL0 could have read this, rather than
    // whether EL1 can.
    if !paging::user_readable(&k.memory, root, buf, len) {
        return (ipc::EFAULT, None);
    }
    proof {
        if len > 0 {
            ipc::lemma_mapped(k.memory, root.0 as int, buf, len, false);
        }
        assert forall|i: int| 0 <= i < len implies match #[trigger] paging::byte_of(
            k.memory,
            root.0 as int,
            buf,
            i,
        ) {
            Some(pa) => k.memory.has(pa, 1),
            None => false,
        } by {
            paging::lemma_leaf_frame(k.memory, root.0 as int, (buf + i) as u64, 0);
        }
    }
    let bytes: Vec<u8> = paging::read_user(&k.memory, root, buf, len as usize);
    assert(bytes@ =~= written(k, buf, len));
    match text::as_text(bytes.as_slice()) {
        Some(text) => (len, Some(uart::write_str(text))),
        None => (ipc::EINVAL, None),
    }
}

/// The kernel is untouched but for the scheduler and what EL0 can reach.
pub open spec fn same_resources(before: &Kernel, after: &Kernel) -> bool {
    &&& after.same_setup(before)
    &&& after.frames == before.frames
    &&& after.scheduler.same_rest(&before.scheduler)
}

/// Nothing changed but the result handed to the caller.
pub open spec fn answered(
    k1: &Kernel,
    t1: &ipc::Table,
    n1: &Notifications,
    frame1: &TrapFrame,
    k2: &Kernel,
    t2: &ipc::Table,
    n2: &Notifications,
    frame2: &TrapFrame,
    rc: u64,
) -> bool {
    &&& *k2 == *k1
    &&& *t2 == *t1
    &&& *n2 == *n1
    &&& returned(frame1, frame2, rc, 0, 0)
}

/// What dispatching a call does: the number in `x8` picks the call, `x0`
/// through `x7` are its arguments, and `x0` through `x2` get its result, unless
/// the caller has to wait for that. An unknown number is an error, not a
/// panic.
pub open spec fn dispatched(
    k1: &Kernel,
    t1: &ipc::Table,
    n1: &Notifications,
    frame1: &TrapFrame,
    k2: &Kernel,
    t2: &ipc::Table,
    n2: &Notifications,
    frame2: &TrapFrame,
    next: Next,
) -> bool {
    let number = frame1.x@[8];
    let a = frame1.x@;
    let me = k1.scheduler.current as int;
    if number == SYS_EXIT {
        &&& next == Next::Exit
        &&& *frame2 == *frame1
        &&& *n2 == *n1
        &&& k2.memory == k1.memory
        &&& ipc::left(t1, t2, me)
        &&& k2.scheduler.tasks@ == ipc::abandoned_tasks(
            t1.pending@,
            tasks::stopped_table(
                k1.scheduler.tasks@,
                me,
                tasks::State::Zombie,
                Some(a[0]),
                None,
            ),
            me,
            8,
        )
    } else if number == SYS_WRITE {
        match write_error(k1, a[0], a[1], a[2]) {
            Some(rc) => next == Next::Return && answered(
                k1,
                t1,
                n1,
                frame1,
                k2,
                t2,
                n2,
                frame2,
                rc,
            ),
            None => {
                &&& next is Print
                &&& next->Print_0@ == uart::crlf(written(k1, a[1], a[2]))
                &&& answered(k1, t1, n1, frame1, k2, t2, n2, frame2, a[2])
            },
        }
    } else if number == SYS_YIELD {
        next == Next::Yield && answered(k1, t1, n1, frame1, k2, t2, n2, frame2, 0)
    } else if number == SYS_GETPID {
        next == Next::Return && answered(k1, t1, n1, frame1, k2, t2, n2, frame2, me as u64)
    } else if number == SYS_SEND {
        &&& *n2 == *n1
        &&& match next {
            Next::Return => exists|rc: u64, len: u64|
                {
                    &&& #[trigger] returned(frame1, frame2, rc, len, 0)
                    &&& ipc::send_effect(
                        t1,
                        &k1.scheduler,
                        &k1.memory,
                        a[0],
                        a[1],
                        a[2],
                        a[3],
                        a[4],
                        a[5],
                        a[6],
                        a[7],
                        t2,
                        &k2.scheduler,
                        &k2.memory,
                        Sent::Done { rc, len },
                    )
                },
            Next::AwaitReply => {
                &&& *frame2 == *frame1
                &&& ipc::send_effect(
                    t1,
                    &k1.scheduler,
                    &k1.memory,
                    a[0],
                    a[1],
                    a[2],
                    a[3],
                    a[4],
                    a[5],
                    a[6],
                    a[7],
                    t2,
                    &k2.scheduler,
                    &k2.memory,
                    Sent::Wait,
                )
            },
            _ => false,
        }
    } else if number == SYS_RECV {
        match next {
            Next::Return => exists|x: u64, y: u64, z: u64|
                {
                    &&& #[trigger] returned(frame1, frame2, x, y, z)
                    &&& received(
                        k1,
                        t1,
                        n1,
                        frame1,
                        k2,
                        t2,
                        n2,
                        Received::Done { a: x, b: y, c: z },
                    )
                },
            Next::AwaitMessage => *frame2 == *frame1 && received(
                k1,
                t1,
                n1,
                frame1,
                k2,
                t2,
                n2,
                Received::Wait,
            ),
            Next::Again => *frame2 == *frame1 && received(
                k1,
                t1,
                n1,
                frame1,
                k2,
                t2,
                n2,
                Received::Again,
            ),
            _ => false,
        }
    } else if number == SYS_REPLY {
        exists|rc: u64|
            {
                &&& #[trigger] returned(frame1, frame2, rc, 0, 0)
                &&& *n2 == *n1
                &&& next == Next::Return || next == Next::Switch
                &&& ipc::reply_effect(
                    t1,
                    &k1.scheduler,
                    &k1.memory,
                    a[0],
                    a[1],
                    a[2],
                    a[3],
                    t2,
                    &k2.scheduler,
                    &k2.memory,
                    (rc, next == Next::Switch),
                )
            }
    } else if number == SYS_BORROW_READ || number == SYS_BORROW_WRITE {
        exists|rc: u64|
            {
                &&& #[trigger] returned(frame1, frame2, rc, 0, 0)
                &&& next == Next::Return
                &&& *t2 == *t1
                &&& *n2 == *n1
                &&& k2.scheduler == k1.scheduler
                &&& ipc::borrow_effect(
                    t1,
                    &k1.scheduler,
                    &k1.memory,
                    a[0],
                    a[1],
                    a[2],
                    a[3],
                    a[4],
                    number == SYS_BORROW_WRITE,
                    &k2.memory,
                    rc,
                )
            }
    } else {
        next == Next::Return && answered(
            k1,
            t1,
            n1,
            frame1,
            k2,
            t2,
            n2,
            frame2,
            ipc::EINVAL,
        )
    }
}

/// What a receive with the arguments in a frame does. The notifications asked
/// for are the low half of `x2`.
pub open spec fn received(
    k1: &Kernel,
    t1: &ipc::Table,
    n1: &Notifications,
    frame1: &TrapFrame,
    k2: &Kernel,
    t2: &ipc::Table,
    n2: &Notifications,
    r: Received,
) -> bool {
    ipc::recv_effect(
        t1,
        n1,
        &k1.scheduler,
        &k1.memory,
        frame1.x@[0],
        frame1.x@[1],
        frame1.x@[2] as u32,
        t2,
        n2,
        &k2.scheduler,
        &k2.memory,
        r,
    )
}

/// A call only wrote where EL0 can reach, and changed what tasks are doing.
proof fn lemma_still_settled(k1: &Kernel, k2: &Kernel)
    requires
        k1.wf(),
        k2.memory.wf(),
        k2.scheduler.wf(),
        same_resources(k1, k2),
        tasks::touched(
            k1.memory,
            k1.scheduler.tasks@,
            k2.memory,
            k2.scheduler.tasks@,
        ),
        tasks::coded(k2.scheduler.tasks@),
    ensures
        k2.wf(),
{
    tasks::lemma_settled_touched(
        k1.memory,
        k2.memory,
        k1.frames.taken(),
        k1.scheduler.tasks@,
        k2.scheduler.tasks@,
        k1.empty_space,
    );
}

/// Handle a system call from EL0.
///
/// The saved program counter already points past the instruction that made the
/// call, and is left alone.
#[verifier::spinoff_prover]
#[verifier::rlimit(60)]
pub fn dispatch(
    k: &mut Kernel,
    t: &mut ipc::Table,
    n: &mut Notifications,
    frame: &mut TrapFrame,
) -> (next: Next)
    requires
        old(k).wf(),
        old(t).wf(),
        old(n).wf(),
        !tasks::in_state(
            old(k).scheduler.tasks@,
            old(k).scheduler.current as int,
            tasks::State::Dead,
        ),
        !tasks::has_exited(old(k).scheduler.tasks@, old(k).scheduler.current as int),
    ensures
        final(k).wf(),
        final(t).wf(),
        final(n).wf(),
        same_resources(old(k), final(k)),
        dispatched(
            old(k),
            old(t),
            old(n),
            old(frame),
            final(k),
            final(t),
            final(n),
            final(frame),
            next,
        ),
{
    let ghost k0 = *k;
    let ghost f0 = *frame;
    let number: u64 = frame.x[8];
    let a0: u64 = frame.x[0];
    let a1: u64 = frame.x[1];
    let a2: u64 = frame.x[2];
    let a3: u64 = frame.x[3];
    if number == SYS_EXIT {
        tasks::exit_current(k, t, a0);
        Next::Exit
    } else if number == SYS_WRITE {
        let (rc, out) = sys_write(k, a0, a1, a2);
        give(frame, rc, 0, 0);
        match out {
            Some(bytes) => Next::Print(bytes),
            None => Next::Return,
        }
    } else if number == SYS_YIELD {
        give(frame, 0, 0, 0);
        Next::Yield
    } else if number == SYS_GETPID {
        let me = tasks::current_id(&k.scheduler);
        give(frame, me.0 as u64, 0, 0);
        Next::Return
    } else if number == SYS_SEND {
        let sent = ipc::send(
            t,
            &mut k.scheduler,
            &mut k.memory,
            a0,
            a1,
            a2,
            a3,
            frame.x[4],
            frame.x[5],
            frame.x[6],
            frame.x[7],
        );
        proof {
            lemma_still_settled(&k0, k);
        }
        match sent {
            Sent::Done { rc, len } => {
                give(frame, rc, len, 0);
                Next::Return
            },
            Sent::Wait => Next::AwaitReply,
        }
    } else if number == SYS_RECV {
        let got = ipc::recv(t, n, &mut k.scheduler, &mut k.memory, a0, a1, a2 as u32);
        proof {
            ipc::lemma_served_coded(
                k0.memory,
                old(t).pending@,
                old(t).outcome@,
                k0.scheduler.tasks@,
                k0.scheduler.current as int,
                a0,
                a1,
            );
            lemma_still_settled(&k0, k);
        }
        match got {
            Received::Done { a, b, c } => {
                give(frame, a, b, c);
                assert(returned(&f0, frame, a, b, c));
                Next::Return
            },
            Received::Wait => Next::AwaitMessage,
            Received::Again => Next::Again,
        }
    } else if number == SYS_REPLY {
        let (rc, switch) = ipc::reply(t, &mut k.scheduler, &mut k.memory, a0, a1, a2, a3);
        proof {
            lemma_still_settled(&k0, k);
        }
        give(frame, rc, 0, 0);
        assert(returned(&f0, frame, rc, 0, 0));
        if switch {
            Next::Switch
        } else {
            Next::Return
        }
    } else if number == SYS_BORROW_READ {
        let rc: u64 = ipc::borrow_read(
            t,
            &k.scheduler,
            &mut k.memory,
            a0,
            a1,
            a2,
            a3,
            frame.x[4],
        );
        proof {
            lemma_still_settled(&k0, k);
        }
        give(frame, rc, 0, 0);
        assert(returned(&f0, frame, rc, 0, 0));
        Next::Return
    } else if number == SYS_BORROW_WRITE {
        let rc: u64 = ipc::borrow_write(
            t,
            &k.scheduler,
            &mut k.memory,
            a0,
            a1,
            a2,
            a3,
            frame.x[4],
        );
        proof {
            lemma_still_settled(&k0, k);
        }
        give(frame, rc, 0, 0);
        assert(returned(&f0, frame, rc, 0, 0));
        Next::Return
    } else {
        give(frame, ipc::EINVAL, 0, 0);
        Next::Return
    }
}

/// A sender has been woken: hand it what its send came to.
pub fn finish_send(t: &mut ipc::Table, me: TaskId, frame: &mut TrapFrame)
    requires
        old(t).wf(),
        me.0 < tasks::MAX_TASKS,
    ensures
        final(t).wf(),
        final(t).pending == old(t).pending,
        final(t).leases == old(t).leases,
        final(t).outcome@ == old(t).outcome@.update(
            me.0 as int,
            Outcome { a: 0, b: 0, c: 0 },
        ),
        returned(
            old(frame),
            final(frame),
            old(t).outcome@[me.0 as int].a,
            old(t).outcome@[me.0 as int].b,
            0,
        ),
{
    let outcome = ipc::collect(t, me);
    give(frame, outcome.a, outcome.b, 0);
}

/// A receiver has been woken: hand it the message that arrived, or the
/// notifications it was waiting for.
pub fn finish_recv(
    t: &mut ipc::Table,
    n: &mut Notifications,
    me: TaskId,
    frame: &mut TrapFrame,
)
    requires
        old(t).wf(),
        old(n).wf(),
        me.0 < tasks::MAX_TASKS,
    ensures
        final(t).wf(),
        final(n).wf(),
        exists|o: Outcome|
            {
                &&& #[trigger] ipc::collected(
                    old(t),
                    old(n),
                    me.0 as int,
                    old(frame).x@[2] as u32,
                    final(t),
                    final(n),
                    o,
                )
                &&& returned(old(frame), final(frame), o.a, o.b, o.c)
            },
{
    let mask: u32 = frame.x[2] as u32;
    let outcome = ipc::collect_received(t, n, me, mask);
    give(frame, outcome.a, outcome.b, outcome.c);
}

// ---------------------------------------------------------------------------
// Supervision.
//
// Only the designated supervisor may hear about faults and act on them. That
// is settled before anything is looked at: a task told that there is no such
// faulted task would have learned that there is none.
// ---------------------------------------------------------------------------

/// Returned to a task that asks for what only the supervisor may have.
pub const EPERM: u64 = 0xffff_ffff_ffff_fffc;

/// Is the running task the supervisor?
pub open spec fn supervising(k: &Kernel) -> bool {
    k.scheduler.supervisor == Some(TaskId(k.scheduler.current))
}

/// Wait until some task has faulted, and name one. With none, the caller is
/// marked blocked: park it, and ask again when it is woken.
pub fn fault_wait(k: &mut Kernel) -> (r: Option<u64>)
    requires
        old(k).wf(),
        !tasks::in_state(
            old(k).scheduler.tasks@,
            old(k).scheduler.current as int,
            tasks::State::Dead,
        ),
        !tasks::has_exited(old(k).scheduler.tasks@, old(k).scheduler.current as int),
    ensures
        final(k).wf(),
        final(k).same_setup(old(k)),
        final(k).frames == old(k).frames,
        final(k).memory == old(k).memory,
        if !supervising(old(k)) {
            r == Some(EPERM) && *final(k) == *old(k)
        } else {
            &&& final(k).scheduler.current == old(k).scheduler.current
            &&& final(k).scheduler.log == old(k).scheduler.log
            &&& final(k).scheduler.supervisor == old(k).scheduler.supervisor
            &&& final(k).scheduler.need_resched == old(k).scheduler.need_resched
            &&& final(k).scheduler.fault_waiters@ == old(k).scheduler.fault_waiters@.update(
                old(k).scheduler.current as int,
                r is None,
            )
            &&& match r {
                Some(id) => {
                    &&& tasks::in_state(
                        old(k).scheduler.tasks@,
                        id as int,
                        tasks::State::Faulted,
                    )
                    &&& forall|j: int|
                        0 <= j < id ==> !#[trigger] tasks::in_state(
                            old(k).scheduler.tasks@,
                            j,
                            tasks::State::Faulted,
                        )
                    &&& final(k).scheduler.tasks@ == old(k).scheduler.tasks@
                },
                None => {
                    &&& forall|j: int| !#[trigger] tasks::in_state(
                        old(k).scheduler.tasks@,
                        j,
                        tasks::State::Faulted,
                    )
                    &&& final(k).scheduler.tasks@ == tasks::blocked_table(
                        old(k).scheduler.tasks@,
                        old(k).scheduler.current as int,
                    )
                },
            }
        },
{
    let me = tasks::current_id(&k.scheduler);
    if !tasks::is_supervisor(&k.scheduler, me) {
        return Some(EPERM);
    }
    let ghost k0 = *k;
    let found = tasks::wait_for_fault(&mut k.scheduler);
    proof {
        tasks::lemma_settled_states(
            k.memory,
            k.frames.taken(),
            k0.scheduler.tasks@,
            k.scheduler.tasks@,
            k.empty_space,
        );
    }
    match found {
        Some(id) => Some(id.0 as u64),
        None => None,
    }
}

/// What stopped a task.
pub fn fault_info(k: &Kernel, id: u64) -> (r: Result<Fault, u64>)
    requires
        k.wf(),
    ensures
        r == if !supervising(k) {
            Err::<Fault, u64>(EPERM)
        } else if id < 8 && tasks::in_state(
            k.scheduler.tasks@,
            id as int,
            tasks::State::Faulted,
        ) && k.scheduler.tasks@[id as int]->0.fault is Some {
            Ok::<Fault, u64>(k.scheduler.tasks@[id as int]->0.fault->0)
        } else {
            Err::<Fault, u64>(ipc::EINVAL)
        },
{
    let me = tasks::current_id(&k.scheduler);
    if !tasks::is_supervisor(&k.scheduler, me) {
        return Err(EPERM);
    }
    if id >= tasks::MAX_TASKS as u64 || !tasks::is_faulted(&k.scheduler, TaskId(id as usize)) {
        return Err(ipc::EINVAL);
    }
    match tasks::fault_of(&k.scheduler, TaskId(id as usize)) {
        Some(fault) => Ok(fault),
        None => Err(ipc::EINVAL),
    }
}

/// Put a faulted task back at its entry point with clean memory.
pub fn restart(k: &mut Kernel, t: &mut ipc::Table, id: u64) -> (r: u64)
    requires
        old(k).wf(),
        old(t).wf(),
    ensures
        final(k).wf(),
        final(t).wf(),
        final(k).same_setup(old(k)),
        final(k).scheduler.same_rest(&old(k).scheduler),
        if !supervising(old(k)) {
            r == EPERM && *final(k) == *old(k) && *final(t) == *old(t)
        } else if id >= 8 {
            r == ipc::EINVAL && *final(k) == *old(k) && *final(t) == *old(t)
        } else {
            let tasks = ipc::abandoned_tasks(
                old(t).pending@,
                old(k).scheduler.tasks@,
                id as int,
                8,
            );
            &&& ipc::left(old(t), final(t), id as int)
            &&& if tasks::restartable(old(k).scheduler.tasks@, id as int) {
                r == 0 && tasks::rebuilt(old(k), final(k), tasks, TaskId(id as usize))
            } else {
                &&& r == ipc::EINVAL
                &&& final(k).frames == old(k).frames
                &&& final(k).memory == old(k).memory
                &&& final(k).scheduler.tasks@ == tasks
            }
        },
{
    let me = tasks::current_id(&k.scheduler);
    if !tasks::is_supervisor(&k.scheduler, me) {
        return EPERM;
    }
    if id >= tasks::MAX_TASKS as u64 {
        return ipc::EINVAL;
    }
    if tasks::restart(k, t, TaskId(id as usize)) {
        0
    } else {
        ipc::EINVAL
    }
}

// ---------------------------------------------------------------------------
// Laws.
//
// Calls are told apart by the number in x8: 0 exits, 1 writes, 2 yields, 3 asks
// for one's own number, 4 sends, 5 receives, 6 replies, 7 reads a lent region
// and 8 writes one.
// ---------------------------------------------------------------------------

/// A call touches no register but the three results, wherever the caller is
/// resumed it is where it left off, and a call that its caller has to wait for
/// touches none at all.
pub proof fn lemma_call_keeps_registers(
    k: &mut Kernel,
    t: &mut ipc::Table,
    n: &mut Notifications,
    frame: &mut TrapFrame,
    next: Next,
    i: int,
)
    requires
        0 <= i < 31,
        call_ensures(dispatch, (k, t, n, frame), next),
    ensures
        i >= 3 ==> final(frame).x@[i] == old(frame).x@[i],
        final(frame).elr == old(frame).elr,
        final(frame).spsr == old(frame).spsr,
        final(frame).esr == old(frame).esr,
        final(frame).far == old(frame).far,
        next is Exit || next is AwaitReply || next is AwaitMessage || next is Again
            ==> final(frame).x@ == old(frame).x@,
        final(k).scheduler.current == old(k).scheduler.current,
{
}

/// No call takes or gives back memory, moves the CPU, or changes anything of the
/// kernel but its tasks and what is in memory; and of the notifications only
/// receiving changes any.
pub proof fn lemma_call_keeps_the_kernel(
    k: &mut Kernel,
    t: &mut ipc::Table,
    n: &mut Notifications,
    frame: &mut TrapFrame,
    next: Next,
)
    requires
        call_ensures(dispatch, (k, t, n, frame), next),
    ensures
        final(k).frames == old(k).frames,
        tasks::rest_kept(old(k).scheduler, final(k).scheduler),
        final(k).offset == old(k).offset,
        final(k).trampoline == old(k).trampoline,
        final(k).user_entry == old(k).user_entry,
        final(k).empty_space == old(k).empty_space,
        old(frame).x@[8] != 5 ==> *final(n) == *old(n),
{
}

/// Call 7 reads: where the caller holds a message that lent it a region to
/// read, the bytes it asked for are in its buffer afterwards, and nobody's
/// memory but its own has changed.
pub proof fn lemma_call_reads_a_lent_region(
    k: &mut Kernel,
    t: &mut ipc::Table,
    n: &mut Notifications,
    frame: &mut TrapFrame,
    next: Next,
)
    requires
        old(k).wf(),
        old(t).wf(),
        old(frame).x@[8] == 7,
        call_ensures(dispatch, (k, t, n, frame), next),
    ensures
        ({
            let x = old(frame).x@;
            let all = old(k).scheduler.tasks@;
            let me = old(k).scheduler.current as int;
            let from = x[0] as int;
            let reach = ipc::within_reach(
                old(t),
                old(k).memory,
                all,
                me,
                x[0],
                x[1],
                x[2],
                x[3],
                x[4],
                false,
            );
            &&& next == Next::Return
            &&& reach ==> final(frame).x@[0] == 0
            &&& final(frame).x@[0] == 0 ==> {
                &&& ipc::user_bytes(final(k).memory, ipc::root_at(all, me), x[3], x[4] as int)
                    == ipc::user_bytes(
                    old(k).memory,
                    ipc::root_at(all, from),
                    (old(t).leases@[from]@[x[1] as int].base + x[2]) as u64,
                    x[4] as int,
                )
                &&& forall|i: int|
                    0 <= i < 8 && i != me && tasks::root_of(all, i) is Some
                        ==> #[trigger] ipc::undisturbed(
                        old(k).memory,
                        final(k).memory,
                        all,
                        i,
                    )
            }
            &&& final(frame).x@[1] == 0 && final(frame).x@[2] == 0
        }),
        *final(t) == *old(t),
        *final(n) == *old(n),
        final(k).scheduler == old(k).scheduler,
{
    lemma_borrow_call(k, t, n, frame, next, false);
}

/// Call 8 writes: where the caller holds a message that lent it a region to
/// write, the lender finds there what the caller has in its buffer, and
/// nobody's memory but the lender's has changed.
pub proof fn lemma_call_writes_a_lent_region(
    k: &mut Kernel,
    t: &mut ipc::Table,
    n: &mut Notifications,
    frame: &mut TrapFrame,
    next: Next,
)
    requires
        old(k).wf(),
        old(t).wf(),
        old(frame).x@[8] == 8,
        call_ensures(dispatch, (k, t, n, frame), next),
    ensures
        ({
            let x = old(frame).x@;
            let all = old(k).scheduler.tasks@;
            let me = old(k).scheduler.current as int;
            let to = x[0] as int;
            let reach = ipc::within_reach(
                old(t),
                old(k).memory,
                all,
                me,
                x[0],
                x[1],
                x[2],
                x[3],
                x[4],
                true,
            );
            &&& next == Next::Return
            &&& reach ==> final(frame).x@[0] == 0
            &&& final(frame).x@[0] == 0 ==> {
                &&& ipc::user_bytes(
                    final(k).memory,
                    ipc::root_at(all, to),
                    (old(t).leases@[to]@[x[1] as int].base + x[2]) as u64,
                    x[4] as int,
                ) == ipc::user_bytes(old(k).memory, ipc::root_at(all, me), x[3], x[4] as int)
                &&& forall|i: int|
                    0 <= i < 8 && i != to && tasks::root_of(all, i) is Some
                        ==> #[trigger] ipc::undisturbed(
                        old(k).memory,
                        final(k).memory,
                        all,
                        i,
                    )
            }
            &&& final(frame).x@[1] == 0 && final(frame).x@[2] == 0
        }),
        *final(t) == *old(t),
        *final(n) == *old(n),
        final(k).scheduler == old(k).scheduler,
{
    lemma_borrow_call(k, t, n, frame, next, true);
}

#[verifier::spinoff_prover]
proof fn lemma_borrow_call(
    k: &mut Kernel,
    t: &mut ipc::Table,
    n: &mut Notifications,
    frame: &mut TrapFrame,
    next: Next,
    write: bool,
)
    requires
        old(k).wf(),
        old(t).wf(),
        old(frame).x@[8] == if write {
            8u64
        } else {
            7u64
        },
        call_ensures(dispatch, (k, t, n, frame), next),
    ensures
        ({
            let x = old(frame).x@;
            let all = old(k).scheduler.tasks@;
            let me = old(k).scheduler.current as int;
            let other = x[0] as int;
            let va = (old(t).leases@[other]@[x[1] as int].base + x[2]) as u64;
            let (mine, theirs) = (ipc::root_at(all, me), ipc::root_at(all, other));
            &&& next == Next::Return
            &&& ipc::within_reach(
                old(t),
                old(k).memory,
                all,
                me,
                x[0],
                x[1],
                x[2],
                x[3],
                x[4],
                write,
            ) ==> final(frame).x@[0] == 0
            &&& final(frame).x@[0] == 0 ==> {
                &&& if write {
                    ipc::user_bytes(final(k).memory, theirs, va, x[4] as int) == ipc::user_bytes(
                        old(k).memory,
                        mine,
                        x[3],
                        x[4] as int,
                    )
                } else {
                    ipc::user_bytes(final(k).memory, mine, x[3], x[4] as int) == ipc::user_bytes(
                        old(k).memory,
                        theirs,
                        va,
                        x[4] as int,
                    )
                }
                &&& forall|i: int|
                    0 <= i < 8 && i != (if write {
                        other
                    } else {
                        me
                    }) && tasks::root_of(all, i) is Some ==> #[trigger] ipc::undisturbed(
                        old(k).memory,
                        final(k).memory,
                        all,
                        i,
                    )
            }
            &&& final(frame).x@[1] == 0 && final(frame).x@[2] == 0
        }),
        *final(t) == *old(t),
        *final(n) == *old(n),
        final(k).scheduler == old(k).scheduler,
{
    let x = old(frame).x@;
    let s = old(k).scheduler;
    let rc = final(frame).x@[0];
    let lease = old(t).leases@[x[0] as int]@[x[1] as int];
    assert(ipc::borrow_effect(
        old(t),
        &s,
        &old(k).memory,
        x[0],
        x[1],
        x[2],
        x[3],
        x[4],
        write,
        &final(k).memory,
        rc,
    ));
    if ipc::within_reach(
        old(t),
        old(k).memory,
        s.tasks@,
        s.current as int,
        x[0],
        x[1],
        x[2],
        x[3],
        x[4],
        write,
    ) {
        ipc::lemma_region_mapped(old(k).memory, s.tasks@, x[0] as int, lease, x[2], x[4]);
    }
    if rc == 0 {
        ipc::lemma_borrow_moves(
            old(t),
            &s,
            &old(k).memory,
            x[0],
            x[1],
            x[2],
            x[3],
            x[4],
            write,
            &final(k).memory,
        );
    }
}

/// Call 4 sends: the caller is blocked on a message to the task in x0, asking
/// for x1, of the x3 bytes at x2, to be answered in the x5 bytes at x4; and it
/// has lent the x7 regions that the table at x6 says. Or it is told why not,
/// and nothing has changed.
pub proof fn lemma_call_sends(
    k: &mut Kernel,
    t: &mut ipc::Table,
    n: &mut Notifications,
    frame: &mut TrapFrame,
    next: Next,
)
    requires
        old(k).wf(),
        old(t).wf(),
        old(frame).x@[8] == 4,
        call_ensures(dispatch, (k, t, n, frame), next),
    ensures
        ({
            let x = old(frame).x@;
            let me = old(k).scheduler.current as int;
            let to = x[0] as int;
            let message = ipc::Message {
                target: x[0] as usize,
                operation: x[1],
                out: x[2],
                out_len: x[3],
                reply_buf: x[4],
                reply_cap: x[5],
            };
            let bytes = ipc::user_bytes(
                old(k).memory,
                ipc::root_at(old(k).scheduler.tasks@, me),
                x[6],
                24 * x[7],
            );
            &&& next is AwaitReply || next is Return
            &&& next is AwaitReply ==> {
                &&& x[0] < 8 && x[0] != me
                &&& final(t).pending@[me] == if old(t).pending@[to] is Some
                    && old(t).pending@[to]->0 is RecvWait {
                    Some(ipc::Pending::ReplyWait(message))
                } else {
                    Some(ipc::Pending::SendWait(message))
                }
                &&& tasks::in_state(final(k).scheduler.tasks@, me, tasks::State::Blocked)
                &&& final(t).leases@[me]@.len() == x[7]
                &&& forall|i: int|
                    0 <= i < x[7] ==> ipc::says(bytes, i, #[trigger] final(t).leases@[me]@[i])
            }
            &&& next is Return ==> {
                &&& *final(t) == *old(t)
                &&& final(k).memory == old(k).memory
                &&& final(k).scheduler == old(k).scheduler
                &&& final(frame).x@[0] >= 0xffff_ffff_ffff_fffd
                &&& final(frame).x@[1] == 0 && final(frame).x@[2] == 0
            }
        }),
        *final(n) == *old(n),
{
    let x = old(frame).x@;
    let me = old(k).scheduler.current as int;
    let bytes = ipc::user_bytes(
        old(k).memory,
        ipc::root_at(old(k).scheduler.tasks@, me),
        x[6],
        24 * x[7],
    );
    if next is AwaitReply {
        assert forall|i: int| 0 <= i < x[7] implies ipc::says(
            bytes,
            i,
            #[trigger] final(t).leases@[me]@[i],
        ) by {
            ipc::lemma_lease_says(bytes, i);
        }
    }
}

/// Call 5 receives into the x1 bytes at x0, or collects one of the
/// notifications in the low half of x2. A caller that waits is blocked on
/// exactly that; one that is answered has the sender, the operation and the
/// length in its result registers, and the bytes in its buffer.
pub proof fn lemma_call_receives(
    k: &mut Kernel,
    t: &mut ipc::Table,
    n: &mut Notifications,
    frame: &mut TrapFrame,
    next: Next,
)
    requires
        old(k).wf(),
        old(t).wf(),
        old(n).wf(),
        old(frame).x@[8] == 5,
        call_ensures(dispatch, (k, t, n, frame), next),
    ensures
        ({
            let x = old(frame).x@;
            let r = final(frame).x@;
            let all = old(k).scheduler.tasks@;
            let me = old(k).scheduler.current as int;
            let from = r[0] as int;
            &&& next is Return || next is AwaitMessage || next is Again
            &&& next is AwaitMessage ==> {
                &&& final(t).pending@[me] == Some(ipc::Pending::RecvWait { buf: x[0], cap: x[1] })
                &&& final(n).wanted@[me] == x[2] % 0x1_0000_0000
                &&& tasks::in_state(final(k).scheduler.tasks@, me, tasks::State::Blocked)
            }
            &&& next is Return && r[0] < 8 ==> {
                let message = old(t).pending@[from]->0->SendWait_0;
                &&& ipc::queued_for(old(t).pending@, from, me)
                &&& final(t).pending@[from] == Some(ipc::Pending::ReplyWait(message))
                &&& r[1] == message.operation
                &&& r[2] == ipc::fitting(old(t).pending@, from, x[1])
                &&& ipc::user_bytes(final(k).memory, ipc::root_at(all, me), x[0], r[2] as int)
                    == ipc::user_bytes(
                    old(k).memory,
                    ipc::root_at(all, from),
                    message.out,
                    r[2] as int,
                )
            }
            &&& next is Return && r[0] == 8 ==> {
                &&& r[1] == old(n).posted@[me] & (x[2] % 0x1_0000_0000) as u32
                &&& r[1] != 0
                &&& r[2] == 0
                &&& *final(t) == *old(t)
            }
        }),
        final(t).leases == old(t).leases,
{
    let x = old(frame).x@;
    let r = final(frame).x@;
    let me = old(k).scheduler.current as int;
    let (p, o, all) = (old(t).pending@, old(t).outcome@, old(k).scheduler.tasks@);
    let mask = x[2];
    assert(mask as u32 == mask % 0x1_0000_0000) by (bit_vector);
    assert(ipc::pending_ok(p[me], me));
    ipc::lemma_serve(old(k).memory, p, o, all, me, x[0], x[1], me);
    if next is Return && r[0] < 8 {
        let message = p[r[0] as int]->0->SendWait_0;
        ipc::lemma_message_arrives(
            old(k).memory,
            final(k).memory,
            all,
            r[0] as int,
            message.out,
            me,
            x[0],
            r[2],
        );
    }
}

/// Call 6 answers the message that the task in x0 is waiting on, with the
/// result in x1 and the x3 bytes at x2: on success that task finds them, and
/// waits for nothing any more. A caller that does not hold the message is
/// refused, and nothing has changed.
pub proof fn lemma_call_replies(
    k: &mut Kernel,
    t: &mut ipc::Table,
    n: &mut Notifications,
    frame: &mut TrapFrame,
    next: Next,
)
    requires
        old(k).wf(),
        old(t).wf(),
        old(frame).x@[8] == 6,
        call_ensures(dispatch, (k, t, n, frame), next),
    ensures
        ({
            let x = old(frame).x@;
            let r = final(frame).x@;
            let all = old(k).scheduler.tasks@;
            let me = old(k).scheduler.current as int;
            let to = x[0] as int;
            let holds = x[0] < 8 && (old(t).pending@[to] matches Some(
                ipc::Pending::ReplyWait(message),
            ) && message.target == me);
            let message = old(t).pending@[to]->0->ReplyWait_0;
            let len = if x[3] <= message.reply_cap {
                x[3]
            } else {
                message.reply_cap
            };
            &&& next is Return || next is Switch
            &&& r[1] == 0 && r[2] == 0
            &&& r[0] == 0xffff_ffff_ffff_ffff <==> x[3] > 256 || !holds
            &&& r[0] == 0 ==> {
                &&& final(t).pending@[to] is None
                &&& final(t).outcome@[to] == (Outcome { a: x[1], b: len, c: 0 })
                &&& ipc::user_bytes(
                    final(k).memory,
                    ipc::root_at(all, to),
                    message.reply_buf,
                    len as int,
                ) == ipc::user_bytes(old(k).memory, ipc::root_at(all, me), x[2], len as int)
                &&& tasks::in_state(all, to, tasks::State::Blocked) ==> tasks::in_state(
                    final(k).scheduler.tasks@,
                    to,
                    tasks::State::Runnable,
                )
                &&& next is Switch <==> tasks::in_state(all, to, tasks::State::Blocked) && all[me]
                    is Some && all[to]->0.priority.0 < all[me]->0.priority.0
            }
            &&& r[0] != 0 ==> {
                &&& next is Return
                &&& *final(t) == *old(t)
                &&& final(k).memory == old(k).memory
                &&& final(k).scheduler == old(k).scheduler
            }
        }),
        *final(n) == *old(n),
{
    let x = old(frame).x@;
    let all = old(k).scheduler.tasks@;
    let me = old(k).scheduler.current as int;
    let to = x[0] as int;
    let message = old(t).pending@[to]->0->ReplyWait_0;
    if final(frame).x@[0] == 0 {
        ipc::lemma_message_arrives(
            old(k).memory,
            final(k).memory,
            all,
            me,
            x[2],
            to,
            message.reply_buf,
            ipc::least(x[3], message.reply_cap),
        );
    }
}

/// Call 0 ends the caller with the code in x0. It is finished, whoever waited
/// on it is told that it is dead, and nobody else changes.
pub proof fn lemma_call_exits(
    k: &mut Kernel,
    t: &mut ipc::Table,
    n: &mut Notifications,
    frame: &mut TrapFrame,
    next: Next,
    i: int,
)
    requires
        old(k).wf(),
        old(t).wf(),
        old(frame).x@[8] == 0,
        old(k).scheduler.tasks@[old(k).scheduler.current as int] is Some,
        0 <= i < 8,
        call_ensures(dispatch, (k, t, n, frame), next),
    ensures
        next == Next::Exit,
        ({
            let me = old(k).scheduler.current as int;
            let (one, two) = (old(k).scheduler.tasks@, final(k).scheduler.tasks@);
            let stuck = match old(t).pending@[i] {
                Some(ipc::Pending::SendWait(message)) => message.target == me,
                Some(ipc::Pending::ReplyWait(message)) => message.target == me,
                _ => false,
            };
            &&& tasks::in_state(two, me, tasks::State::Zombie)
            &&& two[me]->0.exit_code == Some(old(frame).x@[0])
            &&& final(t).pending@[me] is None
            &&& i != me && stuck ==> {
                &&& final(t).pending@[i] is None
                &&& final(t).outcome@[i].a == 0xffff_ffff_ffff_fffd
                &&& tasks::in_state(one, i, tasks::State::Blocked) ==> tasks::in_state(
                    two,
                    i,
                    tasks::State::Runnable,
                )
            }
            &&& i != me && !stuck ==> {
                &&& two[i] == one[i]
                &&& final(t).pending@[i] == old(t).pending@[i]
                &&& final(t).outcome@[i] == old(t).outcome@[i]
            }
        }),
        final(k).memory == old(k).memory,
{
}

/// Call 1 writes the x2 bytes at x1 to the console, if x0 is the console, they
/// are no more than a page, the caller could have read them itself, and they
/// are text. The caller is told how many there were; each byte is printed in
/// order, and each line feed behind a carriage return.
pub proof fn lemma_call_writes_to_the_console(
    k: &mut Kernel,
    t: &mut ipc::Table,
    n: &mut Notifications,
    frame: &mut TrapFrame,
    next: Next,
    i: int,
)
    requires
        old(k).wf(),
        old(frame).x@[8] == 1,
        call_ensures(dispatch, (k, t, n, frame), next),
    ensures
        ({
            let x = old(frame).x@;
            let all = old(k).scheduler.tasks@;
            let me = old(k).scheduler.current as int;
            let text = ipc::user_bytes(
                old(k).memory,
                ipc::root_at(all, me),
                x[1],
                x[2] as int,
            );
            let reads = tasks::root_of(all, me) is Some && paging::user_may(
                old(k).memory,
                ipc::root_at(all, me),
                x[1],
                x[2],
                false,
            );
            let printed = next->Print_0@;
            let at = i + uart::line_feeds(text, i);
            &&& next is Print <==> x[0] == 1 && x[2] <= 4096 && reads && vstd::utf8::valid_utf8(
                text,
            )
            &&& next is Print || next is Return
            &&& next is Print ==> final(frame).x@[0] == x[2]
            &&& next is Return && (x[0] != 1 || x[2] > 4096 || reads) ==> final(frame).x@[0]
                == 0xffff_ffff_ffff_ffff
            &&& x[0] == 1 && x[2] <= 4096 && !reads ==> final(frame).x@[0]
                == 0xffff_ffff_ffff_fffe
            &&& next is Print && 0 <= i < x[2] ==> {
                &&& 0 <= at < printed.len()
                &&& text[i] != 10 ==> printed[at] == text[i]
                &&& text[i] == 10 ==> at + 1 < printed.len() && printed[at] == 13 && printed[at
                    + 1] == 10
                &&& printed.len() == x[2] + uart::line_feeds(text, x[2] as int)
            }
        }),
        *final(k) == *old(k),
        *final(t) == *old(t),
        *final(n) == *old(n),
{
    let x = old(frame).x@;
    let text = ipc::user_bytes(
        old(k).memory,
        ipc::root_at(old(k).scheduler.tasks@, old(k).scheduler.current as int),
        x[1],
        x[2] as int,
    );
    if 0 <= i < x[2] {
        uart::lemma_positions(text, i);
    }
}

/// Calls 2 and 3 change nothing: one gives up the CPU, and the other says who
/// is calling. A number that is no call's is an error, and changes nothing
/// either.
pub proof fn lemma_harmless_calls(
    k: &mut Kernel,
    t: &mut ipc::Table,
    n: &mut Notifications,
    frame: &mut TrapFrame,
    next: Next,
)
    requires
        old(frame).x@[8] == 2 || old(frame).x@[8] == 3 || old(frame).x@[8] > 8,
        call_ensures(dispatch, (k, t, n, frame), next),
    ensures
        *final(k) == *old(k),
        *final(t) == *old(t),
        *final(n) == *old(n),
        final(frame).x@[1] == 0 && final(frame).x@[2] == 0,
        old(frame).x@[8] == 2 <==> next == Next::Yield,
        old(frame).x@[8] == 2 ==> final(frame).x@[0] == 0,
        old(frame).x@[8] == 3 ==> final(frame).x@[0] == old(k).scheduler.current && next
            == Next::Return,
        old(frame).x@[8] > 8 ==> final(frame).x@[0] == 0xffff_ffff_ffff_ffff && next
            == Next::Return,
{
}

/// A sender that has been woken is handed its answer, and a receiver what
/// arrived: what was left for it is in its result registers, and is not left
/// for it any longer.
pub proof fn lemma_woken_caller_is_answered(
    t: &mut ipc::Table,
    me: TaskId,
    frame: &mut TrapFrame,
)
    requires
        old(t).wf(),
        me.0 < 8,
        call_ensures(finish_send, (t, me, frame), ()),
    ensures
        final(frame).x@[0] == old(t).outcome@[me.0 as int].a,
        final(frame).x@[1] == old(t).outcome@[me.0 as int].b,
        final(frame).x@[2] == 0,
        final(t).outcome@[me.0 as int] == (Outcome { a: 0, b: 0, c: 0 }),
        forall|i: int| 3 <= i < 31 ==> #[trigger] final(frame).x@[i] == old(frame).x@[i],
        forall|i: int|
            0 <= i < 8 && i != me.0 ==> #[trigger] final(t).outcome@[i] == old(t).outcome@[i],
{
}

/// A receiver that has been woken finds the message that was delivered to it
/// in its result registers, and one that no message was delivered to finds the
/// notifications it was waiting for.
pub proof fn lemma_woken_receiver_is_answered(
    t: &mut ipc::Table,
    n: &mut Notifications,
    me: TaskId,
    frame: &mut TrapFrame,
)
    requires
        old(t).wf(),
        old(n).wf(),
        me.0 < 8,
        call_ensures(finish_recv, (t, n, me, frame), ()),
    ensures
        ({
            let i = me.0 as int;
            let r = final(frame).x@;
            if old(t).pending@[i] matches Some(ipc::Pending::RecvWait { .. }) {
                &&& r[0] == 8
                &&& r[1] == old(n).posted@[i] & (old(frame).x@[2] % 0x1_0000_0000) as u32
                &&& r[2] == 0
                &&& final(t).pending@[i] is None
            } else {
                &&& r[0] == old(t).outcome@[i].a
                &&& r[1] == old(t).outcome@[i].b
                &&& r[2] == old(t).outcome@[i].c
            }
        }),
        final(n).wanted@[me.0 as int] == 0,
{
    let mask = old(frame).x@[2];
    assert(mask as u32 == mask % 0x1_0000_0000) by (bit_vector);
}

/// Nobody but the supervisor learns of a fault or undoes one: anybody else is
/// told so, whatever it asked for, and nothing changes.
pub proof fn lemma_only_the_supervisor_supervises(
    k: &mut Kernel,
    waited: Option<u64>,
    k2: Kernel,
    id: u64,
    found: Result<Fault, u64>,
    k3: &mut Kernel,
    t3: &mut ipc::Table,
    r: u64,
)
    requires
        old(k).scheduler.supervisor != Some(TaskId(old(k).scheduler.current)),
        call_ensures(fault_wait, (k,), waited),
        k2 == *old(k),
        call_ensures(fault_info, (&k2, id), found),
        *old(k3) == *old(k),
        call_ensures(restart, (k3, t3, id), r),
    ensures
        waited == Some(0xffff_ffff_ffff_fffcu64),
        *final(k) == *old(k),
        found == Err::<Fault, u64>(0xffff_ffff_ffff_fffc),
        r == 0xffff_ffff_ffff_fffc,
        *final(k3) == *old(k3),
        *final(t3) == *old(t3),
{
}

/// The supervisor is told of a task that has faulted, with what it did, for as
/// long as there is one; with none it is blocked, and marked as waiting for one.
pub proof fn lemma_supervisor_hears_of_faults(
    k: &mut Kernel,
    waited: Option<u64>,
    found: Result<Fault, u64>,
    j: int,
)
    requires
        old(k).wf(),
        old(k).scheduler.supervisor == Some(TaskId(old(k).scheduler.current)),
        old(k).scheduler.tasks@[old(k).scheduler.current as int] is Some,
        call_ensures(fault_wait, (k,), waited),
        waited is Some ==> call_ensures(fault_info, (&*final(k), waited->0), found),
        0 <= j < 8,
    ensures
        ({
            let all = old(k).scheduler.tasks@;
            let me = old(k).scheduler.current as int;
            &&& waited is Some ==> {
                &&& waited->0 < 8
                &&& tasks::in_state(all, waited->0 as int, tasks::State::Faulted)
                &&& all[waited->0 as int]->0.fault is Some ==> found == Ok::<Fault, u64>(
                    all[waited->0 as int]->0.fault->0,
                )
                &&& final(k).scheduler.tasks@ == all
                &&& !final(k).scheduler.fault_waiters@[me]
            }
            &&& j != me ==> final(k).scheduler.fault_waiters@[j]
                == old(k).scheduler.fault_waiters@[j]
            &&& tasks::in_state(all, j, tasks::State::Faulted) ==> waited is Some && waited->0 <= j
            &&& waited is None ==> {
                &&& tasks::in_state(final(k).scheduler.tasks@, me, tasks::State::Blocked)
                &&& final(k).scheduler.fault_waiters@[me]
                &&& j != me ==> final(k).scheduler.tasks@[j] == all[j]
            }
        }),
{
}

/// The supervisor is told what a task did only while the task is stopped for
/// it: of any other there is nothing to tell.
pub proof fn lemma_only_a_fault_is_told(
    k: Kernel,
    id: u64,
    r: Result<Fault, u64>,
    stopped: bool,
    fault: Option<Fault>,
)
    requires
        k.scheduler.supervisor == Some(TaskId(k.scheduler.current)),
        call_ensures(fault_info, (&k, id), r),
        id < 8 ==> {
            &&& call_ensures(tasks::is_faulted, (&k.scheduler, TaskId(id as usize)), stopped)
            &&& call_ensures(tasks::fault_of, (&k.scheduler, TaskId(id as usize)), fault)
        },
    ensures
        r is Ok <==> id < 8 && stopped && fault is Some,
        r is Ok ==> r->Ok_0 == fault->0,
        r is Err ==> r->Err_0 == 0xffff_ffff_ffff_ffff,
{
}

/// The supervisor has a task restarted exactly if the task faulted and there is
/// a program for it, and is told so; of any other task it is told that there is
/// no such thing, and the task is left as it is.
pub proof fn lemma_supervisor_restarts_the_faulted(
    k: &mut Kernel,
    t: &mut ipc::Table,
    id: u64,
    r: u64,
)
    requires
        old(k).wf(),
        old(t).wf(),
        old(k).scheduler.supervisor == Some(TaskId(old(k).scheduler.current)),
        call_ensures(restart, (k, t, id), r),
    ensures
        ({
            let i = id as int;
            let (one, two) = (old(k).scheduler.tasks@, final(k).scheduler.tasks@);
            let can = id < 8 && tasks::in_state(one, i, tasks::State::Faulted)
                && one[i]->0.image is Some;
            &&& can ==> {
                &&& r == 0
                &&& tasks::in_state(two, i, tasks::State::Runnable)
                &&& two[i]->0.fault is None
                &&& two[i]->0.image == one[i]->0.image
                &&& two[i]->0.name == one[i]->0.name
                &&& two[i]->0.stack == one[i]->0.stack
            }
            &&& !can ==> {
                &&& r == 0xffff_ffff_ffff_ffff
                &&& id < 8 ==> two[i] == one[i]
                &&& id >= 8 ==> *final(k) == *old(k) && *final(t) == *old(t)
                &&& final(k).memory == old(k).memory
                &&& final(k).frames == old(k).frames
            }
            &&& id < 8 ==> final(t).pending@[i] is None
        }),
{
}

} // verus!
