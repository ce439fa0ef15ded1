//! Mutual exclusion by masking interrupts.
//!
//! There is one core, and the only thing that can interrupt it is an
//! interrupt. So masking interrupts is not an approximation of mutual
//! exclusion here, it is exactly mutual exclusion.

use vstd::prelude::*;

verus! {

/// IRQ and FIQ, as they are laid out in `DAIF`.
pub const IRQ_AND_FIQ: u64 = 0xc0;

/// `PSTATE.I`, as it is laid out in `DAIF`.
pub const IRQ: u64 = 0x80;

/// The interrupt mask of the core.
#[derive(Clone, Copy, PartialEq, Eq, Debug, Structural)]
pub struct Cpu {
    pub daif: u64,
}

/// Saved interrupt mask state, to be put back exactly as it was found.
///
/// Restoring the previous value rather than blindly enabling is what makes
/// critical sections safe to nest.
#[derive(Clone, Copy, PartialEq, Eq, Debug, Structural)]
pub struct InterruptState(pub u64);

/// The mask with IRQ and FIQ masked and everything else as it was.
pub open spec fn masked(daif: u64) -> u64 {
    daif | IRQ_AND_FIQ
}

/// Is the IRQ bit of a mask set?
pub open spec fn irq_masked(daif: u64) -> bool {
    daif & IRQ != 0
}

/// Mask IRQ and FIQ, returning the previous state.
pub fn disable_interrupts(cpu: &mut Cpu) -> (state: InterruptState)
    ensures
        state.0 == old(cpu).daif,
        final(cpu).daif == masked(old(cpu).daif),
        irq_masked(final(cpu).daif),
{
    let state = InterruptState(cpu.daif);
    proof {
        lemma_masked(cpu.daif);
    }
    cpu.daif = cpu.daif | IRQ_AND_FIQ;
    state
}

/// Put the interrupt mask back to what `disable_interrupts` found.
pub fn restore_interrupts(cpu: &mut Cpu, state: InterruptState)
    ensures
        final(cpu).daif == state.0,
{
    cpu.daif = state.0;
}

/// Unmask IRQ and FIQ.
pub fn enable_interrupts(cpu: &mut Cpu)
    ensures
        final(cpu).daif == old(cpu).daif & !IRQ_AND_FIQ,
        !irq_masked(final(cpu).daif),
{
    let daif: u64 = cpu.daif;
    assert((daif & !0xc0u64) & 0x80u64 == 0) by (bit_vector);
    cpu.daif = daif & !IRQ_AND_FIQ;
}

/// True if IRQs are currently masked.
pub fn interrupts_masked(cpu: &Cpu) -> (r: bool)
    ensures
        r == irq_masked(cpu.daif),
{
    cpu.daif & IRQ != 0
}

/// Run `f` with interrupts masked, restoring the previous state afterwards.
pub fn without_interrupts<R, F: FnOnce(&Cpu) -> R>(cpu: &mut Cpu, f: F) -> (r: R)
    requires
        forall|c: &Cpu| irq_masked(c.daif) ==> #[trigger] f.requires((c,)),
    ensures
        *final(cpu) == *old(cpu),
        exists|c: &Cpu|
            c.daif == masked(old(cpu).daif) && #[trigger] f.ensures((c,), r),
{
    let state = disable_interrupts(cpu);
    let inside: Cpu = Cpu { daif: cpu.daif };
    let result = f(&inside);
    restore_interrupts(cpu, state);
    result
}

/// A value that can only be touched with interrupts masked.
#[derive(Debug)]
pub struct Lock<T> {
    data: T,
}

/// Access to the value of a [`Lock`], and the mask to put back.
#[derive(Debug)]
pub struct LockGuard<'a, T> {
    pub state: InterruptState,
    pub data: &'a mut T,
}

impl<T> Lock<T> {
    /// The guarded value.
    pub closed spec fn value(&self) -> T {
        self.data
    }

    /// Guard `data`.
    pub fn new(data: T) -> (l: Lock<T>)
        ensures
            l.value() == data,
    {
        Lock { data }
    }

    /// Mask interrupts and hand out access. Interrupts come back when the
    /// returned guard is released.
    pub fn lock<'a>(&'a mut self, cpu: &mut Cpu) -> (guard: LockGuard<'a, T>)
        ensures
            guard.state.0 == old(cpu).daif,
            final(cpu).daif == masked(old(cpu).daif),
            irq_masked(final(cpu).daif),
            *guard.data == old(self).value(),
            final(self).value() == *final(guard.data),
    {
        LockGuard { state: disable_interrupts(cpu), data: &mut self.data }
    }
}

impl<'a, T> LockGuard<'a, T> {
    /// Release the lock: the mask goes back to what it was.
    pub fn release(self, cpu: &mut Cpu)
        ensures
            final(cpu).daif == self.state.0,
            *final(self.data) == *old(self.data),
    {
        restore_interrupts(cpu, self.state);
    }
}

/// Masking leaves the IRQ masked, and masking again changes nothing.
pub proof fn lemma_masked(daif: u64)
    ensures
        irq_masked(masked(daif)),
        masked(masked(daif)) == masked(daif),
{
    assert((daif | 0xc0u64) & 0x80u64 != 0 && (daif | 0xc0u64) | 0xc0u64 == daif | 0xc0u64)
        by (bit_vector);
}

/// Leaving an inner critical section does not open a window in the outer one.
///
/// `outer` is the mask once interrupts were disabled over `before`, and `inner`
/// once they were disabled again. Restoring the inner state leaves the IRQ
/// masked, and restoring the outer one afterwards gives back exactly what was
/// there before.
pub proof fn lemma_nests(
    before: Cpu,
    outer: Cpu,
    inner: Cpu,
    outer_state: InterruptState,
    inner_state: InterruptState,
)
    requires
        outer_state.0 == before.daif,
        outer.daif == masked(before.daif),
        inner_state.0 == outer.daif,
        inner.daif == masked(outer.daif),
    ensures
        irq_masked(inner.daif),
        irq_masked(inner_state.0),
        inner_state.0 == outer.daif,
        outer_state.0 == before.daif,
{
    lemma_masked(before.daif);
    lemma_masked(outer.daif);
}

/// Disabling masks both kinds of interrupt and leaves every other bit of the
/// mask alone, and putting back what it returned undoes it, whatever the mask
/// was.
pub proof fn lemma_disable_then_restore(
    cpu: &mut Cpu,
    state: InterruptState,
    inside: bool,
    again: &mut Cpu,
)
    requires
        call_ensures(disable_interrupts, (cpu,), state),
        call_ensures(interrupts_masked, (&*final(cpu),), inside),
        *old(again) == *final(cpu),
        call_ensures(restore_interrupts, (again, state), ()),
    ensures
        final(cpu).daif & 0xc0 == 0xc0,
        final(cpu).daif & !0xc0u64 == old(cpu).daif & !0xc0u64,
        inside,
        *final(again) == *old(cpu),
{
    let d = old(cpu).daif;
    assert((d | 0xc0) & 0xc0 == 0xc0 && (d | 0xc0) & !0xc0u64 == d & !0xc0u64) by (bit_vector);
    assert(final(again).daif == old(cpu).daif);
}

/// Enabling unmasks both kinds of interrupt and leaves every other bit of the
/// mask alone.
pub proof fn lemma_enable_unmasks(cpu: &mut Cpu, masked: bool)
    requires
        call_ensures(enable_interrupts, (cpu,), ()),
        call_ensures(interrupts_masked, (&*final(cpu),), masked),
    ensures
        !masked,
        final(cpu).daif & 0xc0 == 0,
        final(cpu).daif & !0xc0u64 == old(cpu).daif & !0xc0u64,
{
    let d = old(cpu).daif;
    assert((d & !0xc0u64) & 0xc0 == 0 && (d & !0xc0u64) & !0xc0u64 == d & !0xc0u64)
        by (bit_vector);
}

/// A value that is locked is handed out with both kinds of interrupt masked,
/// and releasing it puts back the mask there was; what the holder left in it is
/// what the next one finds.
pub proof fn lemma_locked_with_interrupts_masked<'a, T>(
    lock: &'a mut Lock<T>,
    cpu: &mut Cpu,
    guard: LockGuard<'a, T>,
    after: &mut Cpu,
)
    requires
        call_ensures(Lock::<T>::lock, (lock, cpu), guard),
        call_ensures(LockGuard::<'a, T>::release, (guard, after), ()),
    ensures
        final(cpu).daif & 0xc0 == 0xc0,
        final(cpu).daif & !0xc0u64 == old(cpu).daif & !0xc0u64,
        final(after).daif == old(cpu).daif,
        *old(guard.data) == old(lock).value(),
        final(lock).value() == *final(guard.data),
{
    let d = old(cpu).daif;
    assert((d | 0xc0) & 0xc0 == 0xc0 && (d | 0xc0) & !0xc0u64 == d & !0xc0u64) by (bit_vector);
}

/// What runs without interrupts runs with both kinds masked, and leaves the
/// mask as it was.
pub proof fn lemma_runs_with_interrupts_masked<R, F: FnOnce(&Cpu) -> R>(
    cpu: &mut Cpu,
    f: F,
    r: R,
)
    requires
        call_ensures(without_interrupts::<R, F>, (cpu, f), r),
    ensures
        *final(cpu) == *old(cpu),
        exists|c: &Cpu| c.daif & 0xc0 == 0xc0 && #[trigger] f.ensures((c,), r),
{
    let d = old(cpu).daif;
    assert((d | 0xc0) & 0xc0 == 0xc0) by (bit_vector);
    let c = choose|c: &Cpu|
        c.daif == masked(old(cpu).daif) && #[trigger] f.ensures((c,), r);
    assert(f.ensures((c,), r));
}

} // verus!
