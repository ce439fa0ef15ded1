use the_rack::exceptions::{
    dispatch_irq, handle_exception, privileged_traps, probe, Disposition, Fault, Probe, Syndrome,
    TrapFrame, Traps, VectorIndex,
};
use the_rack::frames::init as frames_init;
use the_rack::gic;
use the_rack::memory::Memory;
use the_rack::notify::{route, Notifications};
use the_rack::tasks::{self, Kernel, Priority, TaskId};
use the_rack::timer::{init as timer_init, Timer, TIMER_INTID};

fn trap(esr: u64) -> TrapFrame {
    TrapFrame { x: [7; 31], elr: 0x40_0000, spsr: 0, esr, far: 0x1234 }
}

fn class(ec: u64) -> u64 {
    ec << 26
}

#[test]
fn the_vector_says_where_and_what() {
    assert_eq!(VectorIndex(0).source(), "current EL, SP_EL0");
    assert_eq!(VectorIndex(4).source(), "current EL, SP_ELx");
    assert_eq!(VectorIndex(8).source(), "lower EL, AArch64");
    assert_eq!(VectorIndex(12).source(), "lower EL, AArch32");
    assert_eq!(VectorIndex(16).source(), "unknown source");
    assert_eq!(VectorIndex(4).kind(), "synchronous");
    assert_eq!(VectorIndex(5).kind(), "IRQ");
    assert_eq!(VectorIndex(6).kind(), "FIQ");
    assert_eq!(VectorIndex(7).kind(), "SError");
    assert!(VectorIndex(5).is_irq());
    assert!(!VectorIndex(6).is_irq());
}

#[test]
fn a_syndrome_is_decoded() {
    let s = Syndrome(0x9200_0046);
    assert_eq!(s.exception_class(), 0x24);
    assert_eq!(s.class_name(), "data abort from lower EL");
    assert!(s.is_abort());
    assert_eq!(s.fault_status(), "translation fault, nothing mapped");
    assert_eq!(s.fault_level(), Some(2));
    assert!(s.is_write());
    let p = Syndrome(0x9600_000f);
    assert_eq!(p.class_name(), "data abort from current EL");
    assert_eq!(p.fault_status(), "permission fault");
    assert_eq!(p.fault_level(), Some(3));
    assert!(!p.is_write());
    let b = Syndrome(0xf200_0042);
    assert!(b.is_brk());
    assert_eq!(b.brk_comment(), 0x42);
    assert_eq!(b.class_name(), "BRK instruction");
    assert_eq!(b.iss(), 0x42);
}

#[test]
fn every_status_code_has_a_name() {
    let name = |code: u64| Syndrome(code).fault_status();
    assert_eq!(name(0x03), "address size fault");
    assert_eq!(name(0x04), "translation fault, nothing mapped");
    assert_eq!(name(0x0b), "access flag fault");
    assert_eq!(name(0x0d), "permission fault");
    assert_eq!(name(0x10), "synchronous external abort");
    assert_eq!(name(0x21), "alignment fault");
    assert_eq!(name(0x30), "TLB conflict abort");
    assert_eq!(name(0x08), "other");
    assert_eq!(Syndrome(0x08).fault_level(), None);
    assert_eq!(Syndrome(0x21).fault_level(), None);
}

#[test]
fn a_breakpoint_is_stepped_over() {
    let mut frame = trap(class(0x3c) | 0x42);
    let mut traps = Traps::new();
    assert_eq!(handle_exception(&mut frame, 4, &mut traps), Disposition::Breakpoint);
    assert_eq!(frame.elr, 0x40_0004);
    assert_eq!(frame.x, [7; 31]);
    assert_eq!(traps, Traps::new());
}

#[test]
fn an_interrupt_has_no_syndrome() {
    let mut frame = trap(class(0x24));
    let mut traps = Traps::new();
    assert_eq!(handle_exception(&mut frame, 9, &mut traps), Disposition::Interrupt);
    assert_eq!(frame.elr, 0x40_0000);
}

#[test]
fn a_fault_from_el0_stops_the_task_alone() {
    let mut frame = trap(class(0x24));
    let mut traps = Traps::new();
    assert_eq!(
        handle_exception(&mut frame, 8, &mut traps),
        Disposition::TaskFault(Fault { esr: class(0x24), far: 0x1234, elr: 0x40_0000 })
    );
    // The same address, touched by the kernel.
    let mut kernel = trap(class(0x25));
    assert_eq!(handle_exception(&mut kernel, 4, &mut traps), Disposition::Fatal);
}

#[test]
fn a_privileged_instruction_is_refused_and_counted() {
    let mut traps = Traps::new();
    for ec in [0x00, 0x18] {
        let mut frame = trap(class(ec));
        assert_eq!(handle_exception(&mut frame, 8, &mut traps), Disposition::Refused);
        assert_eq!(frame.elr, 0x40_0004);
    }
    assert_eq!(privileged_traps(&traps), 2);
    let mut kernel = trap(class(0x18));
    assert_eq!(handle_exception(&mut kernel, 4, &mut traps), Disposition::Fatal);
    assert_eq!(privileged_traps(&traps), 2);
}

#[test]
fn a_system_call_is_not_stepped_over() {
    let mut frame = trap(class(0x15));
    let mut traps = Traps::new();
    assert_eq!(handle_exception(&mut frame, 8, &mut traps), Disposition::Syscall);
    assert_eq!(frame.elr, 0x40_0000);
}

#[test]
fn a_probe_catches_a_fault_and_nothing_else() {
    let mut traps = Traps::new();
    let esr = class(0x25) | 0x4f;
    let result = probe(&mut traps, |mut during: Traps| {
        let mut frame = trap(esr);
        assert_eq!(handle_exception(&mut frame, 4, &mut during), Disposition::Probed);
        assert_eq!(frame.elr, 0x40_0004);
        during
    });
    assert!(result.faulted());
    assert_eq!(result.describe(), "permission fault");
    assert!(!traps.expecting_fault);
    let quiet = probe(&mut traps, |during: Traps| during);
    assert!(!quiet.faulted());
    assert_eq!(quiet.describe(), "no fault");
    assert_eq!(Probe { esr: class(0x24) | 4 }.describe(), "translation fault, nothing mapped");
}

fn irq_kernel() -> Kernel {
    let base = 0x4000_0000;
    let mut k = Kernel::new(
        frames_init(base, 0x10_0000, base + 0x4000),
        Memory::new(base, 0x10_0000),
        0xffff_0000_0000_0000,
        1,
        2,
    );
    tasks::init(&mut k);
    tasks::init_address_spaces(&mut k);
    k
}

#[test]
fn the_timer_ticks_posts_and_asks_for_a_reschedule() {
    let mut k = irq_kernel();
    let driver = tasks::spawn_at(&mut k, "driver", 0, 0, Priority(Priority::NORMAL));
    let mut n = Notifications::new();
    route(&mut n, TIMER_INTID, driver, 1);
    let mut t = Timer::new(10_000);
    timer_init(&mut t, 0);
    let irq = dispatch_irq(&mut k, &mut n, &mut t, TIMER_INTID, 105).unwrap();
    assert_eq!(irq.tick.unwrap().deadline, 200);
    assert!(!irq.unhandled);
    assert_eq!(irq.release, gic::end_of_interrupt(TIMER_INTID));
    assert_eq!(n.posted[driver.0], 1);
    assert!(k.scheduler.need_resched);
    let handoff = tasks::preempt_if_needed(&mut k).unwrap();
    assert_eq!((handoff.from, handoff.to), (0, driver.0));
    assert_eq!(k.scheduler.log.preemptions, 1);
    assert!(tasks::preempt_if_needed(&mut k).is_none());
}

#[test]
fn a_spurious_interrupt_is_not_released() {
    let mut k = irq_kernel();
    let mut n = Notifications::new();
    let mut t = Timer::new(10_000);
    assert_eq!(dispatch_irq(&mut k, &mut n, &mut t, gic::SPURIOUS_INTID, 0), None);
    assert!(!k.scheduler.need_resched);
}

#[test]
fn an_interrupt_nobody_owns_is_released_and_reported() {
    let mut k = irq_kernel();
    let mut n = Notifications::new();
    let mut t = Timer::new(10_000);
    let irq = dispatch_irq(&mut k, &mut n, &mut t, 77, 0).unwrap();
    assert!(irq.unhandled);
    assert_eq!(irq.tick, None);
    assert_eq!(irq.release, gic::end_of_interrupt(77));
    route(&mut n, 77, TaskId(3), 4);
    let owned = dispatch_irq(&mut k, &mut n, &mut t, 77, 0).unwrap();
    assert!(!owned.unhandled);
    assert_eq!(n.posted[3], 4);
    assert!(!k.scheduler.need_resched);
}
