//! The generic timer: when the next tick is due, and how many there were.
//!
//! There is no periodic mode. The hardware fires once and stops, so every tick
//! has to arm the next deadline itself.

use vstd::prelude::*;

use crate::gic;

verus! {

/// The EL1 non-secure physical timer.
pub const TIMER_INTID: u32 = 30;

/// Ticks per second. 10 ms between interrupts.
pub const TICK_HZ: u64 = 100;

/// `CNTP_CTL_EL0` with the timer enabled and its interrupt not masked.
pub const CTL_ENABLE: u64 = 1;

/// The heartbeat: how fast the counter runs, the deadline it was last armed
/// with, and the ticks so far.
#[derive(Debug)]
pub struct Timer {
    /// Counter ticks per second, fixed by the platform.
    pub frequency: u64,
    /// The counter value at which the timer will next fire.
    pub deadline: u64,
    pub ticks: u64,
}

/// What a tick asks for.
#[derive(Clone, Copy, PartialEq, Eq, Debug, Structural)]
pub struct Tick {
    /// The deadline to arm.
    pub deadline: u64,
    /// Seconds of uptime, on every tick that completes one.
    pub uptime: Option<u64>,
}

/// What starting the timer asks for, in this order: the interrupt is enabled,
/// the deadline is armed, and only then is the timer let go.
#[derive(Clone, Copy, PartialEq, Eq, Debug, Structural)]
pub struct Start {
    pub enable: gic::Write,
    pub deadline: u64,
    pub control: u64,
}

/// Counter ticks between interrupts.
pub fn interval(frequency: u64) -> (r: u64)
    ensures
        r == frequency / TICK_HZ,
{
    frequency / TICK_HZ
}

/// The first deadline, one interval from now.
pub fn arm_first(now: u64, interval: u64) -> (deadline: u64)
    requires
        now + interval <= u64::MAX,
    ensures
        deadline == now + interval,
{
    now + interval
}

/// The deadline after `deadline`: exactly one interval later, or one interval
/// from now if that has already passed.
pub open spec fn next_deadline(deadline: int, now: int, interval: int) -> int {
    if deadline + interval <= now {
        now + interval
    } else {
        deadline + interval
    }
}

/// Advance the deadline by exactly one interval from the previous deadline.
///
/// Not from now, which would make every period longer by however long it took
/// to reach the handler. Only when a whole interval was missed does the
/// deadline move to one interval from now, rather than firing over and over to
/// catch up.
pub fn arm_next(deadline: u64, now: u64, interval: u64) -> (next: u64)
    requires
        deadline + interval <= u64::MAX,
        now + interval <= u64::MAX,
    ensures
        next == next_deadline(deadline as int, now as int, interval as int),
{
    let next: u64 = deadline + interval;
    if next <= now {
        now + interval
    } else {
        next
    }
}

impl Timer {
    /// A timer that has not been started.
    pub fn new(frequency: u64) -> (t: Timer)
        ensures
            t.frequency == frequency,
            t.deadline == 0,
            t.ticks == 0,
    {
        Timer { frequency, deadline: 0, ticks: 0 }
    }
}

/// Start the heartbeat.
pub fn init(t: &mut Timer, now: u64) -> (r: Start)
    requires
        now + old(t).frequency / TICK_HZ <= u64::MAX,
    ensures
        final(t).frequency == old(t).frequency,
        final(t).ticks == old(t).ticks,
        final(t).deadline == now + old(t).frequency / TICK_HZ,
        r.deadline == final(t).deadline,
        r.control == CTL_ENABLE,
        r.enable == gic::enable_write(TIMER_INTID),
{
    let enable = gic::enable(TIMER_INTID);
    let deadline: u64 = arm_first(now, interval(t.frequency));
    t.deadline = deadline;
    Start { enable, deadline, control: CTL_ENABLE }
}

/// What a tick handled at `now` does, and what it asks for.
pub open spec fn ticked(t1: &Timer, now: u64, t2: &Timer, r: Tick) -> bool {
    &&& t2.frequency == t1.frequency
    &&& t2.ticks == t1.ticks + 1
    &&& t2.deadline == next_deadline(t1.deadline as int, now as int, t1.frequency as int / 100)
    &&& r.deadline == t2.deadline
    &&& r.uptime == if t2.ticks % TICK_HZ == 0 {
        Some((t2.ticks / TICK_HZ) as u64)
    } else {
        None::<u64>
    }
}

/// The timer fired. Arms the next deadline while it is still known exactly
/// where the last one was, then counts the tick.
pub fn on_tick(t: &mut Timer, now: u64) -> (r: Tick)
    requires
        old(t).deadline + old(t).frequency / TICK_HZ <= u64::MAX,
        now + old(t).frequency / TICK_HZ <= u64::MAX,
        old(t).ticks < u64::MAX,
    ensures
        ticked(old(t), now, final(t), r),
{
    let deadline: u64 = arm_next(t.deadline, now, interval(t.frequency));
    t.deadline = deadline;
    t.ticks = t.ticks + 1;
    let uptime: Option<u64> = if t.ticks % TICK_HZ == 0 {
        Some(t.ticks / TICK_HZ)
    } else {
        None
    };
    Tick { deadline, uptime }
}

/// Ticks recorded so far.
pub fn ticks(t: &Timer) -> (r: u64)
    ensures
        r == t.ticks,
{
    t.ticks
}

/// The deadlines the timer is armed with over a run of ticks, the `i`th of
/// which was handled at `nows[i]`.
pub open spec fn deadlines(first: int, interval: int, nows: Seq<int>) -> int
    decreases nows.len(),
{
    if nows.len() == 0 {
        first
    } else {
        next_deadline(deadlines(first, interval, nows.drop_last()), nows.last(), interval)
    }
}

/// Latency does not accumulate: as long as every tick is handled less than an
/// interval after it was due, the deadline after `n` ticks is exactly `n`
/// intervals after the first one.
pub proof fn lemma_no_drift(first: int, interval: int, nows: Seq<int>)
    requires
        forall|i: int|
            0 <= i < nows.len() ==> (#[trigger] nows[i]) < first + (i + 1) * interval,
    ensures
        deadlines(first, interval, nows) == first + nows.len() * interval,
    decreases nows.len(),
{
    if nows.len() == 0 {
        assert(0 * interval == 0) by (nonlinear_arith);
    } else {
        let rest = nows.drop_last();
        let n = nows.len() as int;
        assert forall|i: int| 0 <= i < rest.len() implies (#[trigger] rest[i]) < first + (i + 1)
            * interval by {
            assert(rest[i] == nows[i]);
        }
        lemma_no_drift(first, interval, rest);
        assert(nows[n - 1] < first + (n - 1 + 1) * interval);
        assert((n - 1) * interval + interval == n * interval) by (nonlinear_arith);
    }
}

/// However late a tick is handled, the next deadline lies ahead, and no more
/// than an interval ahead of the later of now and the deadline that passed.
pub proof fn lemma_always_ahead(deadline: int, now: int, interval: int)
    requires
        interval > 0,
    ensures
        next_deadline(deadline, now, interval) > now,
        next_deadline(deadline, now, interval) > deadline,
        next_deadline(deadline, now, interval) <= now + interval || next_deadline(
            deadline,
            now,
            interval,
        ) == deadline + interval,
{
}

/// A tick handled in time moves the deadline by the interval, and one handled
/// a whole interval late moves it to an interval from now; a hundred intervals
/// make no more than a second, and less than a hundred counts too little.
pub proof fn lemma_tick_keeps_time(t: &mut Timer, now: u64, r: Tick, interval_was: u64)
    requires
        call_ensures(interval, (old(t).frequency,), interval_was),
        old(t).deadline + interval_was <= u64::MAX,
        now + interval_was <= u64::MAX,
        call_ensures(on_tick, (t, now), r),
    ensures
        100 * interval_was <= old(t).frequency < 100 * interval_was + 100,
        now < old(t).deadline + interval_was ==> final(t).deadline - old(t).deadline
            == interval_was,
        now >= old(t).deadline + interval_was ==> final(t).deadline - now == interval_was,
        r.deadline == final(t).deadline,
        final(t).frequency == old(t).frequency,
{
}

/// Every tick is counted, and every hundredth completes a second and says how
/// many there have been.
pub proof fn lemma_hundred_ticks_make_a_second(t: &mut Timer, now: u64, r: Tick, counted: u64)
    requires
        call_ensures(on_tick, (t, now), r),
        call_ensures(ticks, (&*final(t),), counted),
    ensures
        counted == old(t).ticks + 1,
        r.uptime is Some ==> r.uptime->0 * 100 == counted,
        r.uptime is None ==> counted % 100 != 0,
{
}

/// Starting the timer arms it for one interval from now, enables its own
/// interrupt line and no other, and lets it go with its interrupt unmasked.
pub proof fn lemma_started_timer_fires(t: &mut Timer, now: u64, r: Start)
    requires
        now + old(t).frequency / 100 <= u64::MAX,
        call_ensures(init, (t, now), r),
    ensures
        final(t).deadline - now == old(t).frequency / 100,
        r.deadline == final(t).deadline,
        r.control % 2 == 1,
        r.control / 2 % 2 == 0,
        r.enable == (gic::Write::Word { address: 0x0800_0100, value: 0x4000_0000 }),
        final(t).ticks == old(t).ticks,
{
    assert(1u32 << (30u32 % 32) == 0x4000_0000) by (bit_vector);
}

} // verus!
