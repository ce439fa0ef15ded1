//! Exceptions: decoding what happened, and deciding what to do about it.
//!
//! The vector table saves the registers and hands them here. This module owns
//! the layout of the saved state, the decoding of the syndrome register, and
//! the policy for each kind of trap. The policy judges a fault by the
//! exception level it came from and never by the address: a fault from EL0 is
//! the task's mistake and stops only that task, while a fault at EL1 is a
//! kernel bug and stays fatal.

use vstd::prelude::*;

use crate::gic;
use crate::notify;
use crate::notify::Notifications;
use crate::tasks;
use crate::tasks::{Kernel, Scheduler};
use crate::timer;
use crate::timer::Timer;

verus! {

/// Registers saved on entry to an exception, and restored on the way out.
#[derive(Clone, Copy, Debug)]
pub struct TrapFrame {
    /// x0 through x30. x30 is the link register.
    pub x: [u64; 31],
    /// Exception Link Register: the address execution resumes at. Writable,
    /// which is how a breakpoint is stepped past.
    pub elr: u64,
    /// Saved Program Status Register: the state to restore.
    pub spsr: u64,
    /// Exception Syndrome Register: what happened, and why.
    pub esr: u64,
    /// Fault Address Register: the address that faulted, for aborts.
    pub far: u64,
}

/// Which of the 16 vector table slots an exception arrived through.
#[derive(Clone, Copy, PartialEq, Eq, Debug, Structural)]
pub struct VectorIndex(pub u64);

impl VectorIndex {
    /// Where the exception came from.
    pub open spec fn source_text(self) -> Seq<char> {
        match self.0 / 4 {
            0 => "current EL, SP_EL0"@,
            1 => "current EL, SP_ELx"@,
            2 => "lower EL, AArch64"@,
            3 => "lower EL, AArch32"@,
            _ => "unknown source"@,
        }
    }

    /// What kind of exception it is.
    pub open spec fn kind_text(self) -> Seq<char> {
        match self.0 % 4 {
            0 => "synchronous"@,
            1 => "IRQ"@,
            2 => "FIQ"@,
            _ => "SError"@,
        }
    }

    /// Did it come from EL0?
    pub open spec fn is_lower(self) -> bool {
        self.0 / 4 == 2 || self.0 / 4 == 3
    }

    pub fn source(&self) -> (r: &'static str)
        ensures
            r@ == self.source_text(),
    {
        match self.0 / 4 {
            0 => "current EL, SP_EL0",
            1 => "current EL, SP_ELx",
            2 => "lower EL, AArch64",
            3 => "lower EL, AArch32",
            _ => "unknown source",
        }
    }

    pub fn kind(&self) -> (r: &'static str)
        ensures
            r@ == self.kind_text(),
    {
        match self.0 % 4 {
            0 => "synchronous",
            1 => "IRQ",
            2 => "FIQ",
            _ => "SError",
        }
    }

    /// IRQ is the second entry in every group.
    pub fn is_irq(&self) -> (r: bool)
        ensures
            r == (self.0 % 4 == 1),
    {
        self.0 % 4 == 1
    }

    /// Did the exception come from EL0?
    pub fn from_lower(&self) -> (r: bool)
        ensures
            r == self.is_lower(),
    {
        self.0 / 4 == 2 || self.0 / 4 == 3
    }
}

/// A decoded `ESR_EL1`: the exception class in bits [31:26], and class
/// specific detail in bits [24:0].
#[derive(Clone, Copy, PartialEq, Eq, Debug, Structural)]
pub struct Syndrome(pub u64);

proof fn lemma_fields(esr: u64)
    by (bit_vector)
    ensures
        (esr >> 26) & 0x3f == esr / 0x400_0000 % 64,
        esr & 0x1ff_ffff == esr % 0x200_0000,
        (esr & 0x1ff_ffff) & 0x3f == esr % 64,
        (esr & 0x1ff_ffff) & 0xffff == esr % 0x1_0000,
        ((esr & 0x1ff_ffff) & 0x40 != 0) == (esr / 64 % 2 == 1),
        (esr % 64) & 3 == esr % 4,
{
}

impl Syndrome {
    /// The exception class.
    pub open spec fn class(self) -> int {
        self.0 as int / 0x400_0000 % 64
    }

    /// The fault status code of an abort.
    pub open spec fn status(self) -> int {
        self.0 as int % 64
    }

    /// The name of the exception class.
    pub open spec fn class_text(self) -> Seq<char> {
        let c = self.class();
        if c == 0x00 {
            "unknown reason"@
        } else if c == 0x01 {
            "trapped WFI or WFE"@
        } else if c == 0x07 {
            "trapped SVE/SIMD/FP access"@
        } else if c == 0x0e {
            "illegal execution state"@
        } else if c == 0x15 {
            "SVC from AArch64"@
        } else if c == 0x18 {
            "trapped MSR/MRS/system instruction"@
        } else if c == 0x20 {
            "instruction abort from lower EL"@
        } else if c == 0x21 {
            "instruction abort from current EL"@
        } else if c == 0x22 {
            "PC alignment fault"@
        } else if c == 0x24 {
            "data abort from lower EL"@
        } else if c == 0x25 {
            "data abort from current EL"@
        } else if c == 0x26 {
            "SP alignment fault"@
        } else if c == 0x2c {
            "trapped floating point exception"@
        } else if c == 0x2f {
            "SError interrupt"@
        } else if c == 0x30 || c == 0x31 {
            "breakpoint"@
        } else if c == 0x32 || c == 0x33 {
            "software step"@
        } else if c == 0x34 || c == 0x35 {
            "watchpoint"@
        } else if c == 0x3c {
            "BRK instruction"@
        } else {
            "unrecognised class"@
        }
    }

    /// Is this one of the aborts whose detail carries a fault status code?
    pub open spec fn abort(self) -> bool {
        self.class() == 0x20 || self.class() == 0x21 || self.class() == 0x24 || self.class()
            == 0x25
    }

    /// The name of the fault status code.
    pub open spec fn status_text(self) -> Seq<char> {
        let s = self.status();
        if s <= 0x03 {
            "address size fault"@
        } else if s <= 0x07 {
            "translation fault, nothing mapped"@
        } else if 0x09 <= s <= 0x0b {
            "access flag fault"@
        } else if 0x0d <= s <= 0x0f {
            "permission fault"@
        } else if s == 0x10 {
            "synchronous external abort"@
        } else if s == 0x21 {
            "alignment fault"@
        } else if s == 0x30 {
            "TLB conflict abort"@
        } else {
            "other"@
        }
    }

    /// Does the status code name a table level?
    pub open spec fn has_level(self) -> bool {
        let s = self.status();
        s <= 0x07 || 0x09 <= s <= 0x0b || 0x0d <= s <= 0x0f
    }

    pub fn exception_class(&self) -> (r: u64)
        ensures
            r == self.class(),
    {
        proof {
            lemma_fields(self.0);
        }
        (self.0 >> 26) & 0x3f
    }

    pub fn iss(&self) -> (r: u64)
        ensures
            r == self.0 % 0x200_0000,
    {
        proof {
            lemma_fields(self.0);
        }
        self.0 & 0x1ff_ffff
    }

    /// Human-readable name for the exception class.
    pub fn class_name(&self) -> (r: &'static str)
        ensures
            r@ == self.class_text(),
    {
        match self.exception_class() {
            0x00 => "unknown reason",
            0x01 => "trapped WFI or WFE",
            0x07 => "trapped SVE/SIMD/FP access",
            0x0e => "illegal execution state",
            0x15 => "SVC from AArch64",
            0x18 => "trapped MSR/MRS/system instruction",
            0x20 => "instruction abort from lower EL",
            0x21 => "instruction abort from current EL",
            0x22 => "PC alignment fault",
            0x24 => "data abort from lower EL",
            0x25 => "data abort from current EL",
            0x26 => "SP alignment fault",
            0x2c => "trapped floating point exception",
            0x2f => "SError interrupt",
            0x30 | 0x31 => "breakpoint",
            0x32 | 0x33 => "software step",
            0x34 | 0x35 => "watchpoint",
            0x3c => "BRK instruction",
            _ => "unrecognised class",
        }
    }

    /// True for the aborts whose detail carries a fault status code and where
    /// `FAR_EL1` is meaningful.
    pub fn is_abort(&self) -> (r: bool)
        ensures
            r == self.abort(),
    {
        let class: u64 = self.exception_class();
        class == 0x20 || class == 0x21 || class == 0x24 || class == 0x25
    }

    /// True for a `BRK`, the software breakpoint.
    pub fn is_brk(&self) -> (r: bool)
        ensures
            r == (self.class() == 0x3c),
    {
        self.exception_class() == 0x3c
    }

    /// The immediate operand of a `BRK`.
    pub fn brk_comment(&self) -> (r: u64)
        ensures
            r == self.0 % 0x1_0000,
    {
        proof {
            lemma_fields(self.0);
        }
        self.iss() & 0xffff
    }

    /// Decode the fault status code: the difference between "nothing is mapped
    /// there" and "something is mapped but you may not touch it".
    pub fn fault_status(&self) -> (r: &'static str)
        ensures
            r@ == self.status_text(),
    {
        proof {
            lemma_fields(self.0);
        }
        let code: u64 = self.iss() & 0x3f;
        if code <= 0x03 {
            "address size fault"
        } else if code <= 0x07 {
            "translation fault, nothing mapped"
        } else if 0x09 <= code && code <= 0x0b {
            "access flag fault"
        } else if 0x0d <= code && code <= 0x0f {
            "permission fault"
        } else if code == 0x10 {
            "synchronous external abort"
        } else if code == 0x21 {
            "alignment fault"
        } else if code == 0x30 {
            "TLB conflict abort"
        } else {
            "other"
        }
    }

    /// Translation table level the fault was taken at, for the faults that
    /// report one.
    pub fn fault_level(&self) -> (r: Option<u64>)
        ensures
            r == if self.has_level() {
                Some((self.0 % 4) as u64)
            } else {
                None::<u64>
            },
    {
        proof {
            lemma_fields(self.0);
        }
        let code: u64 = self.iss() & 0x3f;
        if code <= 0x07 || (0x09 <= code && code <= 0x0b) || (0x0d <= code && code <= 0x0f) {
            Some(code & 0b11)
        } else {
            None
        }
    }

    /// Was the faulting access a write? Valid for data aborts.
    pub fn is_write(&self) -> (r: bool)
        ensures
            r == (self.0 / 64 % 2 == 1),
    {
        proof {
            lemma_fields(self.0);
        }
        self.iss() & 0x40 != 0
    }
}

/// What killed a task.
#[derive(Clone, Copy, PartialEq, Eq, Debug, Structural)]
pub struct Fault {
    pub esr: u64,
    pub far: u64,
    pub elr: u64,
}

impl Fault {
    /// The syndrome, decoded.
    pub fn syndrome(&self) -> (r: Syndrome)
        ensures
            r == Syndrome(self.esr),
    {
        Syndrome(self.esr)
    }
}

/// Result of deliberately touching memory that may be protected.
#[derive(Clone, Copy, PartialEq, Eq, Debug, Structural)]
pub struct Probe {
    /// `ESR_EL1` from the fault, or 0 if there was none.
    pub esr: u64,
}

impl Probe {
    /// Did the access fault?
    pub fn faulted(&self) -> (r: bool)
        ensures
            r == (self.esr != 0),
    {
        self.esr != 0
    }

    /// What the fault was, for reporting.
    pub fn describe(&self) -> (r: &'static str)
        ensures
            r@ == if self.esr == 0 {
                "no fault"@
            } else {
                Syndrome(self.esr).status_text()
            },
    {
        if self.esr == 0 {
            return "no fault";
        }
        Syndrome(self.esr).fault_status()
    }
}

/// What the trap handler remembers between exceptions.
#[derive(Clone, Copy, PartialEq, Eq, Debug, Structural)]
pub struct Traps {
    /// Set while a probe is deliberately touching memory it may not be allowed
    /// to.
    pub expecting_fault: bool,
    /// What the probe's fault was, or 0 if it did not fault.
    pub probe_esr: u64,
    /// Privileged instructions refused to EL0 so far.
    pub privileged: u64,
}

impl Traps {
    /// Nothing expected, nothing recorded.
    pub fn new() -> (t: Traps)
        ensures
            t == (Traps { expecting_fault: false, probe_esr: 0, privileged: 0 }),
    {
        Traps { expecting_fault: false, probe_esr: 0, privileged: 0 }
    }

    /// A probe is about to touch something.
    pub fn begin_probe(&mut self)
        ensures
            *final(self) == (Traps { expecting_fault: true, probe_esr: 0, ..*old(self) }),
    {
        self.probe_esr = 0;
        self.expecting_fault = true;
    }

    /// The probe is done; what happened to it?
    pub fn end_probe(&mut self) -> (p: Probe)
        ensures
            *final(self) == (Traps { expecting_fault: false, ..*old(self) }),
            p.esr == old(self).probe_esr,
    {
        self.expecting_fault = false;
        Probe { esr: self.probe_esr }
    }
}

/// What the trap handler remembers once a probe has begun.
pub open spec fn armed(traps: Traps) -> Traps {
    Traps { expecting_fault: true, probe_esr: 0, privileged: traps.privileged }
}

/// Run `access`, catching a memory fault instead of treating it as fatal.
///
/// `access` is handed what the trap handler remembers while it expects a
/// fault, and hands back what it remembers afterwards. Not reentrant.
pub fn probe<F: FnOnce(Traps) -> Traps>(traps: &mut Traps, access: F) -> (p: Probe)
    requires
        access.requires((armed(*old(traps)),)),
    ensures
        exists|after: Traps|
            {
                &&& #[trigger] access.ensures((armed(*old(traps)),), after)
                &&& p.esr == after.probe_esr
                &&& *final(traps) == (Traps { expecting_fault: false, ..after })
            },
{
    traps.begin_probe();
    let after: Traps = access(*traps);
    *traps = after;
    traps.end_probe()
}

/// Privileged instructions EL0 has been refused.
pub fn privileged_traps(traps: &Traps) -> (r: u64)
    ensures
        r == traps.privileged,
{
    traps.privileged
}

/// What to do about an exception.
#[derive(Clone, Copy, PartialEq, Eq, Debug, Structural)]
pub enum Disposition {
    /// An interrupt: claim it and route it.
    Interrupt,
    /// A probe's fault, recorded and stepped over.
    Probed,
    /// A deliberate breakpoint: report it. Already stepped over.
    Breakpoint,
    /// A system call from EL0.
    Syscall,
    /// An instruction EL0 may not execute, counted and stepped over.
    Refused,
    /// EL0 did something it may not: stop that task.
    TaskFault(Fault),
    /// The kernel did something it may not. Nothing knows how to recover.
    Fatal,
}

/// What an exception calls for, given where it came from, its syndrome, and
/// whether a probe is expecting a fault.
///
/// Interrupts come first and carry no syndrome. A register EL0 simply may not
/// access is undefined at that level and reports class 0; a configurable trap
/// reports class 0x18. Both are a privileged instruction refused.
pub open spec fn disposition(frame: TrapFrame, index: VectorIndex, expecting: bool) -> Disposition {
    let s = Syndrome(frame.esr);
    if index.0 % 4 == 1 {
        Disposition::Interrupt
    } else if s.abort() && expecting {
        Disposition::Probed
    } else if s.class() == 0x3c {
        Disposition::Breakpoint
    } else if index.is_lower() && s.class() == 0x15 {
        Disposition::Syscall
    } else if index.is_lower() && (s.class() == 0x00 || s.class() == 0x18) {
        Disposition::Refused
    } else if index.is_lower() {
        Disposition::TaskFault(Fault { esr: frame.esr, far: frame.far, elr: frame.elr })
    } else {
        Disposition::Fatal
    }
}

/// The dispositions that step over the instruction that trapped. Every
/// instruction is four bytes wide. A system call is not among them: the
/// hardware has already moved past it.
pub open spec fn steps_over(d: Disposition) -> bool {
    d is Probed || d is Breakpoint || d is Refused
}

/// Every exception in the system is judged here.
pub fn handle_exception(frame: &mut TrapFrame, index: u64, traps: &mut Traps) -> (d: Disposition)
    requires
        steps_over(disposition(*old(frame), VectorIndex(index), old(traps).expecting_fault))
            ==> old(frame).elr + 4 <= u64::MAX,
        disposition(*old(frame), VectorIndex(index), old(traps).expecting_fault) is Refused
            ==> old(traps).privileged < u64::MAX,
    ensures
        d == disposition(*old(frame), VectorIndex(index), old(traps).expecting_fault),
        *final(frame) == (TrapFrame {
            elr: if steps_over(d) {
                (old(frame).elr + 4) as u64
            } else {
                old(frame).elr
            },
            ..*old(frame)
        }),
        *final(traps) == (Traps {
            probe_esr: if d is Probed {
                old(frame).esr
            } else {
                old(traps).probe_esr
            },
            privileged: if d is Refused {
                (old(traps).privileged + 1) as u64
            } else {
                old(traps).privileged
            },
            ..*old(traps)
        }),
{
    let index = VectorIndex(index);
    if index.is_irq() {
        return Disposition::Interrupt;
    }
    let syndrome = Syndrome(frame.esr);
    if syndrome.is_abort() && traps.expecting_fault {
        traps.probe_esr = frame.esr;
        frame.elr = frame.elr + 4;
        return Disposition::Probed;
    }
    if syndrome.is_brk() {
        frame.elr = frame.elr + 4;
        return Disposition::Breakpoint;
    }
    if index.from_lower() {
        let class: u64 = syndrome.exception_class();
        if class == 0x15 {
            return Disposition::Syscall;
        }
        if class == 0x00 || class == 0x18 {
            traps.privileged = traps.privileged + 1;
            frame.elr = frame.elr + 4;
            return Disposition::Refused;
        }
        return Disposition::TaskFault(Fault { esr: frame.esr, far: frame.far, elr: frame.elr });
    }
    Disposition::Fatal
}

/// A fault is judged by the level it came from: from EL0 it never ends the
/// kernel, at EL1 it never ends a task, and the faulting address plays no
/// part.
pub proof fn lemma_fault_judged_by_level(
    frame: TrapFrame,
    other: TrapFrame,
    index: VectorIndex,
    expecting: bool,
)
    requires
        other == (TrapFrame { far: other.far, ..frame }),
    ensures
        index.is_lower() ==> !(disposition(frame, index, expecting) is Fatal),
        !index.is_lower() ==> !(disposition(frame, index, expecting) is TaskFault),
        disposition(frame, index, expecting) is TaskFault == disposition(
            other,
            index,
            expecting,
        ) is TaskFault,
        disposition(frame, index, expecting) is Fatal == disposition(
            other,
            index,
            expecting,
        ) is Fatal,
{
}

/// What a claimed interrupt calls for, in this order: the deadline is armed,
/// the interrupt is released, and only then may a task be preempted.
#[derive(Clone, Copy, PartialEq, Eq, Debug, Structural)]
pub struct Irq {
    /// What the timer asks for, if it was the timer.
    pub tick: Option<timer::Tick>,
    /// Nobody knows what to do about this interrupt.
    pub unhandled: bool,
    /// The write that releases it.
    pub release: gic::Write,
}

/// The scheduler, once the timer has asked for a reschedule.
pub open spec fn asked(s: &Scheduler) -> Scheduler {
    Scheduler { need_resched: true, ..*s }
}

/// Route the interrupt `intid`, claimed at `now`.
///
/// The controller can withdraw an interrupt between raising it and its being
/// claimed, in which case it hands back the spurious ID: nothing happens, and
/// nothing is released. Anything else is released exactly once. The timer asks
/// for a reschedule, and every interrupt is posted to whoever owns it.
pub fn dispatch_irq(
    k: &mut Kernel,
    n: &mut Notifications,
    t: &mut Timer,
    intid: u32,
    now: u64,
) -> (r: Option<Irq>)
    requires
        old(k).wf(),
        old(n).wf(),
        intid == timer::TIMER_INTID ==> {
            &&& old(t).deadline + old(t).frequency / timer::TICK_HZ <= u64::MAX
            &&& now + old(t).frequency / timer::TICK_HZ <= u64::MAX
            &&& old(t).ticks < u64::MAX
        },
    ensures
        final(k).wf(),
        final(n).wf(),
        r is None == (intid == gic::SPURIOUS_INTID),
        match r {
            Some(irq) => {
                let timed = intid == timer::TIMER_INTID;
                let before = if timed {
                    asked(&old(k).scheduler)
                } else {
                    old(k).scheduler
                };
                let owned = exists|i: int| #[trigger] notify::routes_to(old(n).routes@, i, intid);
                &&& irq.tick is Some == timed
                &&& if timed {
                    timer::ticked(old(t), now, final(t), irq.tick->0)
                } else {
                    *final(t) == *old(t)
                }
                &&& irq.release == (gic::Write::Word {
                    address: (gic::GICC_BASE + gic::GICC_EOIR) as u64,
                    value: intid,
                })
                &&& final(k).same_setup(old(k))
                &&& final(k).frames == old(k).frames
                &&& final(k).memory == old(k).memory
                &&& irq.unhandled == (!timed && !owned)
                &&& notify::irq_effect(
                    old(n),
                    &before,
                    intid,
                    final(n),
                    &final(k).scheduler,
                    owned,
                )
            },
            None => *final(k) == *old(k) && *final(n) == *old(n) && *final(t) == *old(t),
        },
{
    if intid == gic::SPURIOUS_INTID {
        return None;
    }
    let ghost k0 = *k;
    let timed: bool = intid == timer::TIMER_INTID;
    let mut tick: Option<timer::Tick> = None;
    if timed {
        tick = Some(timer::on_tick(t, now));
        tasks::request_reschedule(&mut k.scheduler);
    }
    let ghost before = k.scheduler;
    let owned: bool = notify::on_irq(n, &mut k.scheduler, intid);
    proof {
        let one = k0.scheduler.tasks@;
        let two = k.scheduler.tasks@;
        assert(one == before.tasks@);
        if owned {
            let i = choose|i: int| #[trigger] notify::routes_to(old(n).routes@, i, intid);
            assert(notify::routes_to(old(n).routes@, i, intid));
        }
        assert forall|i: int| 0 <= i < 8 implies tasks::same_owner(one[i], #[trigger] two[i]) by {
        }
        tasks::lemma_settled_states(
            k.memory,
            k.frames.taken(),
            one,
            two,
            k.empty_space,
        );
    }
    Some(Irq { tick, unhandled: !timed && !owned, release: gic::end_of_interrupt(intid) })
}

// ---------------------------------------------------------------------------
// Laws.
//
// The exception class is bits 31 to 26 of the syndrome. Vectors come in groups
// of four, IRQ second; the last two groups are those of EL0.
// ---------------------------------------------------------------------------

/// An abort taken from EL0 while no probe expects one is the task's fault: it
/// stops that task, carries what the hardware said about it, and neither
/// resumes the task somewhere else nor counts as a refused instruction.
pub proof fn lemma_el0_abort_is_the_tasks(
    frame: &mut TrapFrame,
    index: u64,
    traps: &mut Traps,
    d: Disposition,
)
    requires
        index == 8 || index == 10 || index == 11 || index == 12 || index == 14 || index == 15,
        old(frame).esr / 0x400_0000 % 64 == 0x20 || old(frame).esr / 0x400_0000 % 64 == 0x24,
        !old(traps).expecting_fault,
        call_ensures(handle_exception, (frame, index, traps), d),
    ensures
        d == Disposition::TaskFault(
            Fault { esr: old(frame).esr, far: old(frame).far, elr: old(frame).elr },
        ),
        *final(frame) == *old(frame),
        *final(traps) == *old(traps),
{
}

/// Everything EL0 does wrong ends in a task fault, but for the two classes of
/// instruction it may not execute, a breakpoint, a system call, and a probe.
/// Nothing it does is fatal.
pub proof fn lemma_el0_is_never_fatal(
    frame: &mut TrapFrame,
    index: u64,
    traps: &mut Traps,
    d: Disposition,
)
    requires
        8 <= index < 16,
        index % 4 != 1,
        call_ensures(handle_exception, (frame, index, traps), d),
    ensures
        !(d is Fatal),
        ({
            let class = old(frame).esr / 0x400_0000 % 64;
            !old(traps).expecting_fault && class != 0x00 && class != 0x15 && class != 0x18 && class
                != 0x3c ==> d == Disposition::TaskFault(
                Fault { esr: old(frame).esr, far: old(frame).far, elr: old(frame).elr },
            )
        }),
{
}

/// An instruction is refused exactly when EL0 executed one it may not: an
/// undefined one, or a trapped system instruction. Each refusal is counted,
/// and the task goes on after it.
pub proof fn lemma_refused_means_privileged(
    frame: &mut TrapFrame,
    index: u64,
    traps: &mut Traps,
    d: Disposition,
)
    requires
        old(frame).elr + 4 <= u64::MAX,
        old(traps).privileged < u64::MAX,
        call_ensures(handle_exception, (frame, index, traps), d),
    ensures
        d is Refused <==> {
            let class = old(frame).esr / 0x400_0000 % 64;
            8 <= index < 16 && index % 4 != 1 && (class == 0x00 || class == 0x18)
        },
        final(traps).privileged == old(traps).privileged + if d is Refused {
            1int
        } else {
            0int
        },
        d is Refused ==> final(frame).elr == old(frame).elr + 4,
{
}

/// A system call is an SVC from EL0 and nothing else, and is handed on with
/// the registers it was made with.
pub proof fn lemma_svc_is_a_call(
    frame: &mut TrapFrame,
    index: u64,
    traps: &mut Traps,
    d: Disposition,
)
    requires
        call_ensures(handle_exception, (frame, index, traps), d),
    ensures
        d is Syscall <==> 8 <= index < 16 && index % 4 != 1 && old(frame).esr / 0x400_0000 % 64
            == 0x15,
        d is Syscall ==> *final(frame) == *old(frame) && *final(traps) == *old(traps),
{
}

/// An interrupt is told by its vector alone, whatever the syndrome register
/// was left holding, and disturbs nothing.
pub proof fn lemma_irq_has_no_syndrome(
    frame: &mut TrapFrame,
    index: u64,
    traps: &mut Traps,
    d: Disposition,
)
    requires
        call_ensures(handle_exception, (frame, index, traps), d),
    ensures
        d is Interrupt <==> index % 4 == 1,
        d is Interrupt ==> *final(frame) == *old(frame) && *final(traps) == *old(traps),
{
}

/// At EL1 there are three ways to survive an exception: an interrupt, a
/// breakpoint, and an abort that a probe was waiting for. Everything else is
/// fatal, and is reported as it was found.
pub proof fn lemma_el1_fault_is_fatal(
    frame: &mut TrapFrame,
    index: u64,
    traps: &mut Traps,
    d: Disposition,
)
    requires
        index < 8 || index >= 16,
        call_ensures(handle_exception, (frame, index, traps), d),
    ensures
        ({
            let class = old(frame).esr / 0x400_0000 % 64;
            let aborted = class == 0x20 || class == 0x21 || class == 0x24 || class == 0x25;
            let survived = index % 4 == 1 || class == 0x3c || aborted && old(
                traps,
            ).expecting_fault;
            d is Fatal <==> !survived
        }),
        d is Fatal ==> *final(frame) == *old(frame) && *final(traps) == *old(traps),
{
}

/// A breakpoint is one at either level. It is stepped over and not counted.
pub proof fn lemma_breakpoint_is_stepped_over(
    frame: &mut TrapFrame,
    index: u64,
    traps: &mut Traps,
    d: Disposition,
)
    requires
        old(frame).elr + 4 <= u64::MAX,
        old(traps).privileged < u64::MAX,
        call_ensures(handle_exception, (frame, index, traps), d),
    ensures
        d is Breakpoint <==> index % 4 != 1 && old(frame).esr / 0x400_0000 % 64 == 0x3c,
        d is Breakpoint ==> final(frame).elr == old(frame).elr + 4 && *final(traps) == *old(traps),
{
}

/// Judging an exception changes no register but the address to resume at, and
/// that by one instruction or not at all: one for what was stepped over, and
/// none for what is to be dealt with.
pub proof fn lemma_registers_are_kept(
    frame: &mut TrapFrame,
    index: u64,
    traps: &mut Traps,
    d: Disposition,
)
    requires
        old(frame).elr + 4 <= u64::MAX,
        old(traps).privileged < u64::MAX,
        call_ensures(handle_exception, (frame, index, traps), d),
    ensures
        final(frame).x@ == old(frame).x@,
        final(frame).spsr == old(frame).spsr,
        final(frame).esr == old(frame).esr,
        final(frame).far == old(frame).far,
        final(frame).elr == old(frame).elr + if d is Probed || d is Breakpoint || d is Refused {
            4int
        } else {
            0int
        },
        final(traps).expecting_fault == old(traps).expecting_fault,
{
}

/// A probe finds out what its access came to: the syndrome of the abort it
/// caused, or nothing if the access went through.
pub proof fn lemma_probe_finds_the_abort(
    begun: &mut Traps,
    frame: &mut TrapFrame,
    index: u64,
    during: &mut Traps,
    d: Disposition,
    done: &mut Traps,
    p: Probe,
    faulted: bool,
)
    requires
        call_ensures(Traps::begin_probe, (begun,), ()),
        *old(during) == *final(begun),
        index % 4 != 1,
        call_ensures(handle_exception, (frame, index, during), d),
        *old(done) == *final(during) || *old(done) == *final(begun),
        call_ensures(Traps::end_probe, (done,), p),
        call_ensures(Probe::faulted, (&p,), faulted),
    ensures
        ({
            let class = old(frame).esr / 0x400_0000 % 64;
            let aborted = class == 0x20 || class == 0x21 || class == 0x24 || class == 0x25;
            &&& *old(done) == *final(during) && aborted ==> d is Probed && p.esr == old(frame).esr
                && faulted
            &&& *old(done) == *final(during) && !aborted ==> !(d is Probed) && !faulted
            &&& *old(done) == *final(begun) ==> p.esr == 0 && !faulted
        }),
        !final(done).expecting_fault,
{
}

/// The timer's interrupt is a tick and a reschedule, whether or not anybody
/// else wants to hear of it, and nobody else's interrupt is a tick.
pub proof fn lemma_timer_interrupt_ticks(
    k: &mut Kernel,
    n: &mut Notifications,
    t: &mut Timer,
    intid: u32,
    now: u64,
    r: Option<Irq>,
)
    requires
        call_ensures(dispatch_irq, (k, n, t, intid, now), r),
    ensures
        intid == 30 ==> {
            &&& r is Some && r->0.tick is Some && !r->0.unhandled
            &&& final(t).ticks == old(t).ticks + 1
            &&& r->0.tick->0.deadline == final(t).deadline
            &&& final(k).scheduler.need_resched
        },
        intid != 30 ==> *final(t) == *old(t) && (r is Some ==> r->0.tick is None),
{
    if intid == 30 && !(exists|i: int| #[trigger] notify::routes_to(old(n).routes@, i, intid)) {
        assert(final(k).scheduler == asked(&old(k).scheduler));
    }
}

/// An interrupt that was claimed is released, by its own number, and one that
/// was withdrawn before it could be claimed is not, and changes nothing.
pub proof fn lemma_claimed_is_released(
    k: &mut Kernel,
    n: &mut Notifications,
    t: &mut Timer,
    intid: u32,
    now: u64,
    r: Option<Irq>,
)
    requires
        call_ensures(dispatch_irq, (k, n, t, intid, now), r),
    ensures
        intid == 1023 <==> r is None,
        r is None ==> *final(k) == *old(k) && *final(n) == *old(n) && *final(t) == *old(t),
        r is Some ==> r->0.release == (gic::Write::Word { address: 0x0801_0010, value: intid }),
{
}

/// The interrupt of a driver reaches it: its bits are posted, it is woken if
/// it was parked on one of them, and a reschedule is asked for. No other task
/// changes.
pub proof fn lemma_interrupt_reaches_its_driver(
    k: &mut Kernel,
    n: &mut Notifications,
    t: &mut Timer,
    intid: u32,
    now: u64,
    r: Option<Irq>,
    i: int,
)
    requires
        old(k).wf(),
        old(n).wf(),
        intid != 1023,
        0 <= i < 8,
        old(n).routes@[i] is Some,
        old(n).routes@[i]->0.intid == intid,
        old(n).routes@[i]->0.task.0 < 8,
        forall|j: int| 0 <= j < i ==> match #[trigger] old(n).routes@[j] {
            Some(route) => route.intid != intid,
            None => true,
        },
        call_ensures(dispatch_irq, (k, n, t, intid, now), r),
    ensures
        r is Some && !r->0.unhandled,
        ({
            let bits = old(n).routes@[i]->0.bits;
            let to = old(n).routes@[i]->0.task.0 as int;
            let wanted = old(n).wanted@[to] & bits != 0;
            let (one, two) = (old(k).scheduler.tasks@, final(k).scheduler.tasks@);
            &&& final(n).posted@[to] & bits == bits
            &&& wanted ==> final(k).scheduler.need_resched
            &&& wanted && tasks::in_state(one, to, tasks::State::Blocked) ==> tasks::in_state(
                two,
                to,
                tasks::State::Runnable,
            )
            &&& forall|j: int| 0 <= j < 8 && j != to ==> #[trigger] two[j] == one[j]
        }),
{
    let before = old(n).posted@[old(n).routes@[i]->0.task.0 as int];
    let bits = old(n).routes@[i]->0.bits;
    assert forall|j: int| 0 <= j < i && (#[trigger] old(n).routes@[j]) is Some implies old(
        n,
    ).routes@[j]->0.intid != intid by {
    }
    assert(notify::routes_to(old(n).routes@, i, intid));
    assert((before | bits) & bits == bits) by (bit_vector);
}

/// An interrupt that nobody was routed, and that is not the timer's, is
/// reported, and nobody hears of it.
pub proof fn lemma_unrouted_is_reported(
    k: &mut Kernel,
    n: &mut Notifications,
    t: &mut Timer,
    intid: u32,
    now: u64,
    r: Option<Irq>,
)
    requires
        old(n).wf(),
        intid != 1023,
        intid != 30,
        forall|j: int| 0 <= j < 8 ==> match #[trigger] old(n).routes@[j] {
            Some(route) => route.intid != intid,
            None => true,
        },
        call_ensures(dispatch_irq, (k, n, t, intid, now), r),
    ensures
        r is Some && r->0.unhandled,
        *final(n) == *old(n),
        final(k).scheduler == old(k).scheduler,
{
    if exists|i: int| #[trigger] notify::routes_to(old(n).routes@, i, intid) {
        let i = choose|i: int| #[trigger] notify::routes_to(old(n).routes@, i, intid);
        assert(old(n).routes@[i]->0.intid == intid);
    }
}

/// The fields of a syndrome are its bits: the class, the length bit and the
/// detail make up the low word again.
pub proof fn lemma_syndrome_fields(s: Syndrome, class: u64, iss: u64)
    requires
        call_ensures(Syndrome::exception_class, (&s,), class),
        call_ensures(Syndrome::iss, (&s,), iss),
    ensures
        class < 64,
        iss < 0x200_0000,
        s.0 % 0x1_0000_0000 == class * 0x400_0000 + (s.0 / 0x200_0000 % 2) * 0x200_0000 + iss,
{
    let x = s.0;
    assert(x % 0x1_0000_0000 == (x / 0x400_0000 % 64) * 0x400_0000 + (x / 0x200_0000 % 2)
        * 0x200_0000 + x % 0x200_0000) by (bit_vector);
}

/// The detail of a syndrome holds the status of an abort in its low six bits,
/// of which the low two are the table level, and its direction in the bit
/// above them; a breakpoint's number is the low half word.
pub proof fn lemma_syndrome_detail(
    s: Syndrome,
    iss: u64,
    write: bool,
    comment: u64,
    level: Option<u64>,
)
    requires
        call_ensures(Syndrome::iss, (&s,), iss),
        call_ensures(Syndrome::is_write, (&s,), write),
        call_ensures(Syndrome::brk_comment, (&s,), comment),
        call_ensures(Syndrome::fault_level, (&s,), level),
    ensures
        comment == iss % 0x1_0000,
        write <==> iss % 128 >= 64,
        level is Some ==> level->0 == iss % 4,
        level is Some <==> iss % 64 < 16 && iss % 64 != 8 && iss % 64 != 12,
{
    let x = s.0;
    assert({
        let d = x % 0x200_0000;
        &&& d % 0x1_0000 == x % 0x1_0000
        &&& (d % 128 >= 64) == (x / 64 % 2 == 1)
        &&& d % 4 == x % 4
        &&& d % 64 == x % 64
    }) by (bit_vector);
}

/// The aborts, and only they, are named for one, and a breakpoint is told by
/// its class.
pub proof fn lemma_abort_classes(s: Syndrome, class: u64, abort: bool, brk: bool)
    requires
        call_ensures(Syndrome::exception_class, (&s,), class),
        call_ensures(Syndrome::is_abort, (&s,), abort),
        call_ensures(Syndrome::is_brk, (&s,), brk),
    ensures
        abort <==> class == 0x20 || class == 0x21 || class == 0x24 || class == 0x25,
        brk <==> class == 0x3c,
{
}

/// A vector is of EL0 exactly when it is in the upper half of the table, and
/// an IRQ exactly when it is second in its group of four.
pub proof fn lemma_vector_halves(v: VectorIndex, lower: bool, irq: bool)
    requires
        call_ensures(VectorIndex::from_lower, (&v,), lower),
        call_ensures(VectorIndex::is_irq, (&v,), irq),
    ensures
        lower <==> 8 <= v.0 < 16,
        irq <==> (v.0 - 1) % 4 == 0,
{
}

/// A syndrome is named for its class alone, and a fault for the low six bits of
/// its detail alone: which way a fault went at what level is told by its range.
pub proof fn lemma_syndrome_is_named(
    s: Syndrome,
    class: u64,
    iss: u64,
    name: &'static str,
    status: &'static str,
)
    requires
        call_ensures(Syndrome::exception_class, (&s,), class),
        call_ensures(Syndrome::iss, (&s,), iss),
        call_ensures(Syndrome::class_name, (&s,), name),
        call_ensures(Syndrome::fault_status, (&s,), status),
    ensures
        class == 0x00 ==> name@ == "unknown reason"@,
        class == 0x01 ==> name@ == "trapped WFI or WFE"@,
        class == 0x07 ==> name@ == "trapped SVE/SIMD/FP access"@,
        class == 0x0e ==> name@ == "illegal execution state"@,
        class == 0x15 ==> name@ == "SVC from AArch64"@,
        class == 0x18 ==> name@ == "trapped MSR/MRS/system instruction"@,
        class == 0x20 ==> name@ == "instruction abort from lower EL"@,
        class == 0x21 ==> name@ == "instruction abort from current EL"@,
        class == 0x22 ==> name@ == "PC alignment fault"@,
        class == 0x24 ==> name@ == "data abort from lower EL"@,
        class == 0x25 ==> name@ == "data abort from current EL"@,
        class == 0x26 ==> name@ == "SP alignment fault"@,
        class == 0x2c ==> name@ == "trapped floating point exception"@,
        class == 0x2f ==> name@ == "SError interrupt"@,
        class / 2 == 0x18 ==> name@ == "breakpoint"@,
        class / 2 == 0x19 ==> name@ == "software step"@,
        class / 2 == 0x1a ==> name@ == "watchpoint"@,
        class == 0x3c ==> name@ == "BRK instruction"@,
        iss % 64 / 4 == 0 ==> status@ == "address size fault"@,
        iss % 64 / 4 == 1 ==> status@ == "translation fault, nothing mapped"@,
        iss % 64 / 4 == 2 && iss % 4 != 0 ==> status@ == "access flag fault"@,
        iss % 64 / 4 == 3 && iss % 4 != 0 ==> status@ == "permission fault"@,
        iss % 64 == 0x10 ==> status@ == "synchronous external abort"@,
        iss % 64 == 0x21 ==> status@ == "alignment fault"@,
        iss % 64 == 0x30 ==> status@ == "TLB conflict abort"@,
{
    let x = s.0;
    assert({
        let d = x % 0x200_0000;
        d % 64 == x % 64 && d % 4 == x % 4 && x % 64 % 4 == x % 4
    }) by (bit_vector);
}

/// A vector is named for its group of four, and for its place in the group.
pub proof fn lemma_vector_is_named(v: VectorIndex, source: &'static str, kind: &'static str)
    requires
        call_ensures(VectorIndex::source, (&v,), source),
        call_ensures(VectorIndex::kind, (&v,), kind),
    ensures
        v.0 < 4 ==> source@ == "current EL, SP_EL0"@,
        4 <= v.0 < 8 ==> source@ == "current EL, SP_ELx"@,
        8 <= v.0 < 12 ==> source@ == "lower EL, AArch64"@,
        12 <= v.0 < 16 ==> source@ == "lower EL, AArch32"@,
        16 <= v.0 ==> source@ == "unknown source"@,
        v.0 % 4 == 0 ==> kind@ == "synchronous"@,
        v.0 % 4 == 1 ==> kind@ == "IRQ"@,
        v.0 % 4 == 2 ==> kind@ == "FIQ"@,
        v.0 % 4 == 3 ==> kind@ == "SError"@,
{
}

} // verus!
