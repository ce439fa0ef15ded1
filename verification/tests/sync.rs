use the_rack::sync::{
    disable_interrupts, enable_interrupts, interrupts_masked, restore_interrupts,
    without_interrupts, Cpu, Lock,
};

#[test]
fn locks_mask_and_nest() {
    let mut cpu = Cpu { daif: 0x3c0 };
    let mut probe = Lock::new(0u32);
    let mut other = Lock::new(0u32);

    let entry_state = disable_interrupts(&mut cpu);
    enable_interrupts(&mut cpu);
    let unlocked = interrupts_masked(&cpu);

    let guard = probe.lock(&mut cpu);
    let locked = interrupts_masked(&cpu);
    *guard.data += 1;

    // Take and drop a second lock while the first is still held.
    let inner = other.lock(&mut cpu);
    *inner.data += 1;
    inner.release(&mut cpu);
    let nested_after_inner_drop = interrupts_masked(&cpu);

    let counted = *guard.data;
    guard.release(&mut cpu);
    let released = interrupts_masked(&cpu);

    restore_interrupts(&mut cpu, entry_state);

    assert!(!unlocked);
    assert!(locked);
    assert!(nested_after_inner_drop);
    assert!(!released);
    assert_eq!(counted, 1);
    assert_eq!(cpu.daif, 0x3c0);
    let again = probe.lock(&mut cpu);
    assert_eq!(*again.data, 1);
}

#[test]
fn only_irq_and_fiq_are_masked() {
    let mut cpu = Cpu { daif: 0 };
    disable_interrupts(&mut cpu);
    assert_eq!(cpu.daif, 0xc0);
    cpu.daif = 0x3c0;
    enable_interrupts(&mut cpu);
    assert_eq!(cpu.daif, 0x300);
}

#[test]
fn a_section_runs_masked_and_puts_the_mask_back() {
    let mut cpu = Cpu { daif: 0x300 };
    let seen = without_interrupts(&mut cpu, |inside: &Cpu| interrupts_masked(inside));
    assert!(seen);
    assert_eq!(cpu.daif, 0x300);
    let mut masked = Cpu { daif: 0x80 };
    without_interrupts(&mut masked, |_: &Cpu| ());
    assert!(interrupts_masked(&masked));
}
