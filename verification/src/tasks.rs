//! Tasks: who exists, who runs next, and what each of them owns.
//!
//! A scheduler is a policy for choosing who runs. Stopping one thing and
//! starting another is done by whoever called: every function here that gives
//! up the CPU returns the handoff to make, and changes the table as if it had
//! been made.

use vstd::prelude::*;

use crate::exceptions::Fault;
use crate::frames;
use crate::frames::{Allocator, Frame};
use crate::ipc;
use crate::memory::Memory;
use crate::notify;
use crate::paging;
use crate::paging::{AddressSpace, Attributes};
use crate::timer;

verus! {

/// Kernel stack size per task, in frames.
pub const STACK_FRAMES: usize = 4;

/// Kernel stack size per task, in bytes.
pub const STACK_SIZE: u64 = 16384;

/// Written at the lowest address of every kernel stack and checked afterwards.
pub const STACK_CANARY: u64 = 0x5441_434b_5f43_414e;

/// Task table size: a limit on tasks alive at once, not on tasks ever created.
pub const MAX_TASKS: usize = 8;

/// Words in the frame a switch leaves on a stack: x19 to x30.
pub const SWITCH_FRAME_WORDS: u64 = 12;

/// How important a task is. Lower number wins.
///
/// Scheduling is strictly priority ordered: a runnable task at priority 0 runs,
/// and a task at priority 1 does not, however long it has been waiting.
#[derive(Clone, Copy, PartialEq, Eq, PartialOrd, Ord, Debug, Structural)]
pub struct Priority(pub u8);

impl Priority {
    pub const HIGH: u8 = 0;

    pub const NORMAL: u8 = 1;

    pub const LOW: u8 = 2;

    /// Reserved for the idle task.
    pub const IDLE: u8 = 255;

    /// Does `self` get the CPU ahead of `other`?
    pub open spec fn above(self, other: Priority) -> bool {
        self.0 < other.0
    }

    /// Does `self` get the CPU ahead of `other`?
    ///
    /// A named method rather than a bare `<`, because `a < b` meaning "a is
    /// more important than b" reads fine and is understood wrongly.
    pub fn outranks(self, other: Priority) -> (r: bool)
        ensures
            r == self.above(other),
    {
        self.0 < other.0
    }
}

/// What a task is doing, as far as the scheduler cares.
#[derive(Clone, Copy, PartialEq, Eq, Debug, Structural)]
pub enum State {
    Runnable,
    /// Waiting for something that has not happened yet. Never a candidate for
    /// the CPU, no matter how high its priority.
    Blocked,
    /// Finished, but still holding its kernel stack and address space: a task
    /// cannot free the stack it is standing on.
    Zombie,
    /// Resources returned. Only the table slot and the exit code remain.
    Dead,
    /// Stopped because it did something it was not allowed to. Keeps its stack
    /// and address space, so somebody can look at the wreckage or put the task
    /// back together.
    Faulted,
}

/// A task, by its slot in the table.
#[derive(Clone, Copy, PartialEq, Eq, Debug, Structural)]
pub struct TaskId(pub usize);

/// How to reconstruct a user task: its program and its argument.
#[derive(Clone, Copy, Debug)]
pub struct Image {
    pub text: &'static [u8],
    pub arg: u64,
}

/// One task.
#[derive(Debug)]
pub struct Task {
    pub name: &'static str,
    /// The task's low half address space, if it has one.
    pub space: Option<AddressSpace>,
    /// Where the task's saved switch frame lives. Only meaningful while the
    /// task is not running.
    pub sp: u64,
    /// Base of the kernel stack.
    pub stack: Frame,
    /// Whether `stack` came from the frame allocator and must go back to it.
    pub owns_stack: bool,
    pub priority: Priority,
    pub state: State,
    pub exit_code: Option<u64>,
    pub fault: Option<Fault>,
    /// Everything needed to build the task again. Only user tasks have one.
    pub image: Option<Image>,
}

/// Why a switch happened.
#[derive(Clone, Copy, PartialEq, Eq, Debug, Structural)]
pub enum Reason {
    Voluntary,
    Preemptive,
}

/// Room in the switch log.
pub const SWITCH_LOG_LEN: usize = 32;

/// One switch, as logged.
#[derive(Clone, Copy, PartialEq, Eq, Debug, Structural)]
pub struct Switch {
    pub from: usize,
    pub to: usize,
    pub preemptive: bool,
}

/// Record of who handed off to whom.
#[derive(Debug)]
pub struct SwitchLog {
    pub entries: Vec<Switch>,
    /// Switches that happened after the log filled up.
    pub overflow: usize,
    /// Counted for every switch, logged or not.
    pub preemptions: usize,
}

/// One more, unless the count is at its end.
pub open spec fn bumped(n: usize) -> usize {
    if n < usize::MAX {
        (n + 1) as usize
    } else {
        n
    }
}

impl SwitchLog {
    /// The log has not outgrown its room.
    pub open spec fn wf(&self) -> bool {
        self.entries@.len() <= SWITCH_LOG_LEN
    }

    /// The log after one more switch.
    pub open spec fn noted(&self, before: &SwitchLog, from: int, to: int, reason: Reason) -> bool {
        &&& self.entries@ == if before.entries@.len() < SWITCH_LOG_LEN {
            before.entries@.push(
                Switch {
                    from: from as usize,
                    to: to as usize,
                    preemptive: reason == Reason::Preemptive,
                },
            )
        } else {
            before.entries@
        }
        &&& self.overflow == if before.entries@.len() < SWITCH_LOG_LEN {
            before.overflow
        } else {
            bumped(before.overflow)
        }
        &&& self.preemptions == if reason == Reason::Preemptive {
            bumped(before.preemptions)
        } else {
            before.preemptions
        }
    }

    /// Nothing recorded.
    pub fn new() -> (log: SwitchLog)
        ensures
            log.wf(),
            log.entries@ == Seq::<Switch>::empty(),
            log.overflow == 0,
            log.preemptions == 0,
    {
        SwitchLog { entries: Vec::new(), overflow: 0, preemptions: 0 }
    }
}

fn bump(n: usize) -> (r: usize)
    ensures
        r == bumped(n),
{
    if n < usize::MAX {
        n + 1
    } else {
        n
    }
}

/// Record a switch, or count it if the log is full.
pub fn note_switch(log: &mut SwitchLog, from: usize, to: usize, reason: Reason)
    requires
        old(log).wf(),
    ensures
        final(log).wf(),
        final(log).noted(old(log), from as int, to as int, reason),
{
    let preemptive: bool = reason == Reason::Preemptive;
    if log.entries.len() < SWITCH_LOG_LEN {
        log.entries.push(Switch { from, to, preemptive });
    } else {
        log.overflow = bump(log.overflow);
    }
    if preemptive {
        log.preemptions = bump(log.preemptions);
    }
}

/// Start the switch log over.
pub fn reset_switch_log(log: &mut SwitchLog)
    ensures
        final(log).wf(),
        final(log).entries@ == Seq::<Switch>::empty(),
        final(log).overflow == 0,
        final(log).preemptions == 0,
{
    *log = SwitchLog::new();
}

/// The task table, and who is on the CPU.
#[derive(Debug)]
pub struct Scheduler {
    pub tasks: Vec<Option<Task>>,
    pub current: usize,
    pub log: SwitchLog,
    /// The one task allowed to hear about faults and act on them.
    pub supervisor: Option<TaskId>,
    /// Which tasks are parked waiting for a fault.
    pub fault_waiters: Vec<bool>,
    /// Set to ask for the current task to be preempted at the next safe
    /// moment.
    pub need_resched: bool,
}

/// Is slot `i` occupied by a task in this state?
pub open spec fn in_state(tasks: Seq<Option<Task>>, i: int, state: State) -> bool {
    0 <= i < tasks.len() && tasks[i] is Some && tasks[i]->0.state == state
}

/// How long slot `i` has waited: slots are visited from just past the current
/// one, and the current one comes last.
pub open spec fn turn(current: int, i: int) -> int {
    (i - current - 1) % 8
}

/// Does slot `i` go before slot `j`: higher priority, or the same priority and
/// an earlier turn?
pub open spec fn before(tasks: Seq<Option<Task>>, current: int, i: int, j: int) -> bool {
    let (p, q) = (tasks[i]->0.priority, tasks[j]->0.priority);
    p.above(q) || p == q && turn(current, i) < turn(current, j)
}

/// The task that runs next: runnable, and before every other runnable task.
pub open spec fn is_next(tasks: Seq<Option<Task>>, current: int, i: int) -> bool {
    &&& in_state(tasks, i, State::Runnable)
    &&& forall|j: int|
        #![trigger in_state(tasks, j, State::Runnable)]
        in_state(tasks, j, State::Runnable) && j != i ==> before(tasks, current, i, j)
}

/// Can anything run at all?
pub open spec fn any_runnable(tasks: Seq<Option<Task>>) -> bool {
    exists|i: int| #[trigger] in_state(tasks, i, State::Runnable)
}

impl Scheduler {
    /// The table has its slots, and the current one is among them.
    pub open spec fn wf(&self) -> bool {
        &&& self.tasks@.len() == MAX_TASKS
        &&& self.fault_waiters@.len() == MAX_TASKS
        &&& self.current < MAX_TASKS
        &&& self.log.wf()
    }

    /// Everything but the task table is unchanged.
    pub open spec fn same_rest(&self, other: &Scheduler) -> bool {
        &&& self.current == other.current
        &&& self.log == other.log
        &&& self.supervisor == other.supervisor
        &&& self.fault_waiters == other.fault_waiters
        &&& self.need_resched == other.need_resched
    }

    /// An empty table.
    pub fn new() -> (s: Scheduler)
        ensures
            s.wf(),
            s.tasks@ == Seq::new(8, |i: int| None::<Task>),
            s.current == 0,
            s.log.entries@ == Seq::<Switch>::empty(),
            s.log.overflow == 0,
            s.log.preemptions == 0,
            s.supervisor is None,
            s.fault_waiters@ == Seq::new(8, |i: int| false),
            !s.need_resched,
    {
        let mut tasks: Vec<Option<Task>> = Vec::new();
        let mut fault_waiters: Vec<bool> = Vec::new();
        let mut i: usize = 0;
        while i < MAX_TASKS
            invariant
                i <= MAX_TASKS,
                tasks@ == Seq::new(i as nat, |i: int| None::<Task>),
                fault_waiters@ == Seq::new(i as nat, |i: int| false),
            decreases MAX_TASKS - i,
        {
            tasks.push(None);
            fault_waiters.push(false);
            i += 1;
        }
        Scheduler {
            tasks,
            current: 0,
            log: SwitchLog::new(),
            supervisor: None,
            fault_waiters,
            need_resched: false,
        }
    }

    /// The state of the task in a slot, if there is one.
    pub fn state_of(&self, slot: usize) -> (r: Option<State>)
        requires
            self.wf(),
        ensures
            r == if slot < MAX_TASKS && self.tasks@[slot as int] is Some {
                Some(self.tasks@[slot as int]->0.state)
            } else {
                None::<State>
            },
    {
        if slot >= MAX_TASKS {
            return None;
        }
        match &self.tasks[slot] {
            Some(task) => Some(task.state),
            None => None,
        }
    }

    /// The lowest empty slot.
    pub fn free_slot(&self) -> (r: Option<usize>)
        requires
            self.wf(),
        ensures
            match r {
                Some(slot) => {
                    &&& slot < MAX_TASKS
                    &&& self.tasks@[slot as int] is None
                    &&& forall|j: int| 0 <= j < slot ==> self.tasks@[j] is Some
                },
                None => forall|j: int| 0 <= j < MAX_TASKS ==> self.tasks@[j] is Some,
            },
    {
        let mut slot: usize = 0;
        while slot < MAX_TASKS
            invariant
                self.wf(),
                slot <= MAX_TASKS,
                forall|j: int| 0 <= j < slot ==> self.tasks@[j] is Some,
            decreases MAX_TASKS - slot,
        {
            if self.tasks[slot].is_none() {
                return Some(slot);
            }
            slot += 1;
        }
        None
    }

    /// The best runnable task, or `None` if nothing at all can run.
    ///
    /// Best means highest priority, and among equals the one that has waited
    /// longest. One scan from just past `current` keeps the first task of the
    /// best priority seen; visiting `current` last is what makes it lose ties
    /// to its peers.
    pub fn next_runnable(&self) -> (r: Option<usize>)
        requires
            self.wf(),
        ensures
            match r {
                Some(slot) => is_next(self.tasks@, self.current as int, slot as int),
                None => !any_runnable(self.tasks@),
            },
    {
        let ghost tasks = self.tasks@;
        let ghost current = self.current as int;
        let mut best: Option<(usize, Priority)> = None;
        let mut step: usize = 1;
        while step <= MAX_TASKS
            invariant
                self.wf(),
                tasks == self.tasks@,
                current == self.current,
                1 <= step <= MAX_TASKS + 1,
                match best {
                    Some((slot, priority)) => {
                        &&& in_state(tasks, slot as int, State::Runnable)
                        &&& tasks[slot as int]->0.priority == priority
                        &&& turn(current, slot as int) < step - 1
                        &&& forall|j: int|
                            #![trigger in_state(tasks, j, State::Runnable)]
                            in_state(tasks, j, State::Runnable) && turn(current, j) < step - 1 && j
                                != slot ==> before(tasks, current, slot as int, j)
                    },
                    None => forall|j: int|
                        #![trigger in_state(tasks, j, State::Runnable)]
                        turn(current, j) < step - 1 ==> !in_state(tasks, j, State::Runnable),
                },
            decreases MAX_TASKS + 1 - step,
        {
            let candidate: usize = (self.current + step) % MAX_TASKS;
            proof {
                assert(turn(current, candidate as int) == step - 1);
                assert forall|j: int| 0 <= j < 8 && turn(current, j) == step - 1 implies j
                    == candidate by {}
            }
            match &self.tasks[candidate] {
                Some(task) => {
                    if task.state == State::Runnable {
                        match best {
                            Some((slot, priority)) => {
                                // Strictly outranks, so the earlier task in
                                // the scan keeps a tie.
                                if task.priority.outranks(priority) {
                                    best = Some((candidate, task.priority));
                                }
                            },
                            None => {
                                best = Some((candidate, task.priority));
                            },
                        }
                    }
                },
                None => {},
            }
            step += 1;
        }
        match best {
            Some((slot, priority)) => Some(slot),
            None => None,
        }
    }
}

// ---------------------------------------------------------------------------
// Blocking and waking.
// ---------------------------------------------------------------------------

/// The table with one task in another state.
pub open spec fn with_state(tasks: Seq<Option<Task>>, i: int, state: State) -> Seq<Option<Task>> {
    tasks.update(i, Some(Task { state, ..tasks[i]->0 }))
}

fn set_state(s: &mut Scheduler, slot: usize, state: State)
    requires
        old(s).wf(),
        slot < MAX_TASKS,
        old(s).tasks@[slot as int] is Some,
    ensures
        final(s).wf(),
        final(s).same_rest(old(s)),
        final(s).tasks@ == with_state(old(s).tasks@, slot as int, state),
{
    match &mut s.tasks[slot] {
        Some(task) => {
            task.state = state;
        },
        None => {},
    }
    assert(s.tasks@ =~= with_state(old(s).tasks@, slot as int, state));
}

/// The table once the current task has been marked blocked.
pub open spec fn blocked_table(tasks: Seq<Option<Task>>, current: int) -> Seq<Option<Task>> {
    if tasks[current] is Some {
        with_state(tasks, current, State::Blocked)
    } else {
        tasks
    }
}

/// Take the current task out of the running, but keep the CPU for now.
///
/// Marking is not stopping. A task that is about to wake somebody else has to
/// be out of the run queue before it does the waking, or the answer can arrive
/// as a wakeup for a task that still looks runnable.
pub fn mark_current_blocked(s: &mut Scheduler)
    requires
        old(s).wf(),
    ensures
        final(s).wf(),
        final(s).same_rest(old(s)),
        final(s).tasks@ == blocked_table(old(s).tasks@, old(s).current as int),
        old(s).tasks@[old(s).current as int] is None ==> *final(s) == *old(s),
{
    let current: usize = s.current;
    if s.tasks[current].is_some() {
        set_state(s, current, State::Blocked);
    }
}

/// The table once `id` has been woken. Waking something that is not blocked
/// does nothing.
pub open spec fn woken_table(tasks: Seq<Option<Task>>, id: int) -> Seq<Option<Task>> {
    if in_state(tasks, id, State::Blocked) {
        with_state(tasks, id, State::Runnable)
    } else {
        tasks
    }
}

/// Is `id` asleep, and more important than the current task?
pub open spec fn wakes_above(tasks: Seq<Option<Task>>, current: int, id: int) -> bool {
    &&& in_state(tasks, id, State::Blocked)
    &&& tasks[current] is Some
    &&& tasks[id]->0.priority.above(tasks[current]->0.priority)
}

/// Put a blocked task back in the running without giving up the CPU.
///
/// Returns whether the woken task outranks the caller, so a caller that wants
/// the handoff can make it and one that does not can carry on.
pub fn unblock_deferred(s: &mut Scheduler, id: TaskId) -> (r: bool)
    requires
        old(s).wf(),
    ensures
        final(s).wf(),
        final(s).same_rest(old(s)),
        final(s).tasks@ == woken_table(old(s).tasks@, id.0 as int),
        r == wakes_above(old(s).tasks@, old(s).current as int, id.0 as int),
{
    let running: Option<Priority> = match &s.tasks[s.current] {
        Some(task) => Some(task.priority),
        None => None,
    };
    if id.0 >= MAX_TASKS {
        return false;
    }
    let woken: Option<Priority> = match &s.tasks[id.0] {
        Some(task) => if task.state == State::Blocked {
            Some(task.priority)
        } else {
            None
        },
        None => None,
    };
    match woken {
        Some(priority) => {
            set_state(s, id.0, State::Runnable);
            match running {
                Some(running) => priority.outranks(running),
                None => false,
            }
        },
        None => false,
    }
}

/// Ask for the current task to be preempted at the next safe moment.
pub fn request_reschedule(s: &mut Scheduler)
    ensures
        *final(s) == (Scheduler { need_resched: true, ..*old(s) }),
{
    s.need_resched = true;
}

/// The task currently on the CPU.
pub fn current_id(s: &Scheduler) -> (r: TaskId)
    ensures
        r.0 == s.current,
{
    TaskId(s.current)
}

/// Has the task in slot `i` not come to an end of any kind?
pub open spec fn alive(tasks: Seq<Option<Task>>, i: int) -> bool {
    in_state(tasks, i, State::Runnable) || in_state(tasks, i, State::Blocked)
}

/// Can the task still be sent to?
///
/// False for every terminal state, so nobody waits for a reply that will never
/// come.
pub fn is_alive(s: &Scheduler, id: TaskId) -> (r: bool)
    requires
        s.wf(),
    ensures
        r == alive(s.tasks@, id.0 as int),
{
    match s.state_of(id.0) {
        Some(state) => state == State::Runnable || state == State::Blocked,
        None => false,
    }
}

/// The task's scheduling priority, if the slot is occupied.
pub fn priority_of(s: &Scheduler, id: TaskId) -> (r: Option<Priority>)
    requires
        s.wf(),
    ensures
        r == if id.0 < MAX_TASKS && s.tasks@[id.0 as int] is Some {
            Some(s.tasks@[id.0 as int]->0.priority)
        } else {
            None::<Priority>
        },
{
    if id.0 >= MAX_TASKS {
        return None;
    }
    match &s.tasks[id.0] {
        Some(task) => Some(task.priority),
        None => None,
    }
}

/// Root of a task's address space, if it has one.
pub open spec fn root_of(tasks: Seq<Option<Task>>, i: int) -> Option<Frame> {
    if 0 <= i < tasks.len() && tasks[i] is Some && tasks[i]->0.space is Some {
        Some(tasks[i]->0.space->0.root)
    } else {
        None
    }
}

/// Root of any task's address space, not just the running one.
pub fn space_root_of(s: &Scheduler, id: TaskId) -> (r: Option<Frame>)
    requires
        s.wf(),
    ensures
        r == root_of(s.tasks@, id.0 as int),
{
    if id.0 >= MAX_TASKS {
        return None;
    }
    match &s.tasks[id.0] {
        Some(task) => match &task.space {
            Some(space) => Some(space.root()),
            None => None,
        },
        None => None,
    }
}

/// Root of the current task's address space, if it has one.
pub fn current_space_root(s: &Scheduler) -> (r: Option<Frame>)
    requires
        s.wf(),
    ensures
        r == root_of(s.tasks@, s.current as int),
{
    space_root_of(s, TaskId(s.current))
}

/// Is the task waiting on something?
pub fn is_blocked(s: &Scheduler, id: TaskId) -> (r: bool)
    requires
        s.wf(),
        id.0 < MAX_TASKS,
    ensures
        r == in_state(s.tasks@, id.0 as int, State::Blocked),
{
    match s.state_of(id.0) {
        Some(state) => state == State::Blocked,
        None => false,
    }
}

/// Has the task stopped for good, whether or not it has been cleaned up yet?
///
/// Not the same as "not runnable": a blocked task is waiting to carry on.
pub fn finished(s: &Scheduler, id: TaskId) -> (r: bool)
    requires
        s.wf(),
        id.0 < MAX_TASKS,
    ensures
        r == (in_state(s.tasks@, id.0 as int, State::Zombie) || in_state(
            s.tasks@,
            id.0 as int,
            State::Dead,
        ) || in_state(s.tasks@, id.0 as int, State::Faulted)),
{
    match s.state_of(id.0) {
        Some(state) => state == State::Zombie || state == State::Dead || state == State::Faulted,
        None => false,
    }
}

/// Has the task been reaped?
pub fn is_dead(s: &Scheduler, id: TaskId) -> (r: bool)
    requires
        s.wf(),
        id.0 < MAX_TASKS,
    ensures
        r == in_state(s.tasks@, id.0 as int, State::Dead),
{
    match s.state_of(id.0) {
        Some(state) => state == State::Dead,
        None => false,
    }
}

/// Is the task stopped by a fault?
pub fn is_faulted(s: &Scheduler, id: TaskId) -> (r: bool)
    requires
        s.wf(),
        id.0 < MAX_TASKS,
    ensures
        r == in_state(s.tasks@, id.0 as int, State::Faulted),
{
    match s.state_of(id.0) {
        Some(state) => state == State::Faulted,
        None => false,
    }
}

/// What a finished task exited with.
pub fn exit_code(s: &Scheduler, id: TaskId) -> (r: Option<u64>)
    requires
        s.wf(),
        id.0 < MAX_TASKS,
    ensures
        r == if s.tasks@[id.0 as int] is Some {
            s.tasks@[id.0 as int]->0.exit_code
        } else {
            None::<u64>
        },
{
    match &s.tasks[id.0] {
        Some(task) => task.exit_code,
        None => None,
    }
}

/// What killed a task, if something did.
pub fn fault_of(s: &Scheduler, id: TaskId) -> (r: Option<Fault>)
    requires
        s.wf(),
        id.0 < MAX_TASKS,
    ensures
        r == if s.tasks@[id.0 as int] is Some {
            s.tasks@[id.0 as int]->0.fault
        } else {
            None::<Fault>
        },
{
    match &s.tasks[id.0] {
        Some(task) => task.fault,
        None => None,
    }
}

/// Slots below `n`, other than the current one, that hold a runnable task.
pub open spec fn others_below(tasks: Seq<Option<Task>>, current: int, n: int) -> int
    decreases n,
{
    if n <= 0 {
        0
    } else {
        others_below(tasks, current, n - 1) + if n - 1 != current && in_state(
            tasks,
            n - 1,
            State::Runnable,
        ) {
            1int
        } else {
            0int
        }
    }
}

/// How many tasks other than the current one can still run.
pub fn runnable_others(s: &Scheduler) -> (r: usize)
    requires
        s.wf(),
    ensures
        r == others_below(s.tasks@, s.current as int, 8),
{
    let mut slot: usize = 0;
    let mut count: usize = 0;
    while slot < MAX_TASKS
        invariant
            s.wf(),
            slot <= MAX_TASKS,
            count <= slot,
            count == others_below(s.tasks@, s.current as int, slot as int),
        decreases MAX_TASKS - slot,
    {
        if slot != s.current {
            match s.state_of(slot) {
                Some(state) => {
                    if state == State::Runnable {
                        count += 1;
                    }
                },
                None => {},
            }
        }
        slot += 1;
    }
    count
}

/// Empty slots below `n`.
pub open spec fn empty_below(tasks: Seq<Option<Task>>, n: int) -> int
    decreases n,
{
    if n <= 0 {
        0
    } else {
        empty_below(tasks, n - 1) + if tasks[n - 1] is None {
            1int
        } else {
            0int
        }
    }
}

/// How many slots are empty.
pub fn free_slots(s: &Scheduler) -> (r: usize)
    requires
        s.wf(),
    ensures
        r == empty_below(s.tasks@, 8),
{
    let mut slot: usize = 0;
    let mut count: usize = 0;
    while slot < MAX_TASKS
        invariant
            s.wf(),
            slot <= MAX_TASKS,
            count <= slot,
            count == empty_below(s.tasks@, slot as int),
        decreases MAX_TASKS - slot,
    {
        if s.tasks[slot].is_none() {
            count += 1;
        }
        slot += 1;
    }
    count
}

/// Free the table slots of tasks that have been reaped, and count them.
///
/// Separate from reaping because the exit code lives in the slot, and
/// collecting it is the caller's business.
pub fn release_dead(s: &mut Scheduler) -> (r: usize)
    requires
        old(s).wf(),
    ensures
        final(s).wf(),
        final(s).same_rest(old(s)),
        final(s).tasks@ == released_table(old(s).tasks@, old(s).current as int, 8),
        r == empty_below(final(s).tasks@, 8) - empty_below(old(s).tasks@, 8),
{
    let mut slot: usize = 0;
    let mut released: usize = 0;
    assert(s.tasks@ =~= released_table(s.tasks@, s.current as int, 0));
    while slot < MAX_TASKS
        invariant
            s.wf(),
            s.same_rest(old(s)),
            old(s).wf(),
            slot <= MAX_TASKS,
            released <= slot,
            s.tasks@ == released_table(old(s).tasks@, s.current as int, slot as int),
            released == empty_below(s.tasks@, slot as int) - empty_below(
                old(s).tasks@,
                slot as int,
            ),
        decreases MAX_TASKS - slot,
    {
        let ghost before = s.tasks@;
        if slot != s.current {
            match s.state_of(slot) {
                Some(state) => {
                    if state == State::Dead {
                        s.tasks[slot] = None;
                        released += 1;
                    }
                },
                None => {},
            }
        }
        proof {
            assert(s.tasks@ =~= released_table(old(s).tasks@, s.current as int, slot + 1));
            lemma_empty_below(before, s.tasks@, slot as int);
        }
        slot += 1;
    }
    released
}

/// The table with every reaped task's slot below `n` emptied, but for the
/// current one.
pub open spec fn released_table(
    tasks: Seq<Option<Task>>,
    current: int,
    n: int,
) -> Seq<Option<Task>> {
    Seq::new(
        tasks.len(),
        |i: int|
            if i < n && i != current && in_state(tasks, i, State::Dead) {
                None
            } else {
                tasks[i]
            },
    )
}

proof fn lemma_empty_below(one: Seq<Option<Task>>, two: Seq<Option<Task>>, n: int)
    requires
        n <= one.len() == two.len(),
        forall|i: int| 0 <= i < n ==> one[i] == two[i],
    ensures
        empty_below(one, n) == empty_below(two, n),
    decreases n,
{
    if n > 0 {
        lemma_empty_below(one, two, n - 1);
    }
}

// ---------------------------------------------------------------------------
// Supervision.
// ---------------------------------------------------------------------------

/// Designate the one task allowed to hear about faults and act on them.
pub fn set_supervisor(s: &mut Scheduler, id: TaskId)
    ensures
        *final(s) == (Scheduler { supervisor: Some(id), ..*old(s) }),
{
    s.supervisor = Some(id);
}

/// Is this the supervisor?
pub fn is_supervisor(s: &Scheduler, id: TaskId) -> (r: bool)
    ensures
        r == (s.supervisor == Some(id)),
{
    match s.supervisor {
        Some(supervisor) => supervisor == id,
        None => false,
    }
}

/// The lowest numbered task currently stopped by a fault.
pub fn first_faulted(s: &Scheduler) -> (r: Option<TaskId>)
    requires
        s.wf(),
    ensures
        match r {
            Some(id) => {
                &&& in_state(s.tasks@, id.0 as int, State::Faulted)
                &&& forall|j: int|
                    0 <= j < id.0 ==> !#[trigger] in_state(s.tasks@, j, State::Faulted)
            },
            None => forall|j: int| !#[trigger] in_state(s.tasks@, j, State::Faulted),
        },
{
    let mut slot: usize = 0;
    while slot < MAX_TASKS
        invariant
            s.wf(),
            slot <= MAX_TASKS,
            forall|j: int| 0 <= j < slot ==> !#[trigger] in_state(s.tasks@, j, State::Faulted),
        decreases MAX_TASKS - slot,
    {
        match s.state_of(slot) {
            Some(state) => {
                if state == State::Faulted {
                    return Some(TaskId(slot));
                }
            },
            None => {},
        }
        slot += 1;
    }
    None
}

/// Name a faulted task, or get ready to sleep until there is one.
///
/// A faulted task stays faulted until somebody deals with it, so the table is
/// the backlog and nothing can be missed by not being collected in time. On
/// `None` the current task is marked blocked and registered as waiting: park,
/// and ask again on waking.
pub fn wait_for_fault(s: &mut Scheduler) -> (r: Option<TaskId>)
    requires
        old(s).wf(),
    ensures
        final(s).wf(),
        final(s).current == old(s).current,
        final(s).log == old(s).log,
        final(s).supervisor == old(s).supervisor,
        final(s).need_resched == old(s).need_resched,
        final(s).fault_waiters@ == old(s).fault_waiters@.update(old(s).current as int, r is None),
        match r {
            Some(id) => {
                &&& in_state(old(s).tasks@, id.0 as int, State::Faulted)
                &&& forall|j: int|
                    0 <= j < id.0 ==> !#[trigger] in_state(old(s).tasks@, j, State::Faulted)
                &&& final(s).tasks@ == old(s).tasks@
            },
            None => {
                &&& forall|j: int| !#[trigger] in_state(old(s).tasks@, j, State::Faulted)
                &&& final(s).tasks@ == blocked_table(old(s).tasks@, old(s).current as int)
            },
        },
{
    let me: usize = s.current;
    match first_faulted(s) {
        Some(id) => {
            s.fault_waiters[me] = false;
            Some(id)
        },
        None => {
            s.fault_waiters[me] = true;
            mark_current_blocked(s);
            None
        },
    }
}

/// The table once everybody waiting for a fault, in a slot below `n`, has been
/// woken.
pub open spec fn alerted_table(
    tasks: Seq<Option<Task>>,
    waiters: Seq<bool>,
    n: int,
) -> Seq<Option<Task>> {
    Seq::new(
        tasks.len(),
        |i: int|
            if i < n && waiters[i] && in_state(tasks, i, State::Blocked) {
                Some(Task { state: State::Runnable, ..tasks[i]->0 })
            } else {
                tasks[i]
            },
    )
}

/// Wake everybody waiting to hear about a fault, without giving up the CPU.
pub fn wake_fault_waiters(s: &mut Scheduler)
    requires
        old(s).wf(),
    ensures
        final(s).wf(),
        final(s).same_rest(old(s)),
        final(s).tasks@ == alerted_table(old(s).tasks@, old(s).fault_waiters@, 8),
{
    let mut slot: usize = 0;
    assert(s.tasks@ =~= alerted_table(s.tasks@, s.fault_waiters@, 0));
    while slot < MAX_TASKS
        invariant
            s.wf(),
            old(s).wf(),
            s.same_rest(old(s)),
            slot <= MAX_TASKS,
            s.tasks@ == alerted_table(old(s).tasks@, s.fault_waiters@, slot as int),
        decreases MAX_TASKS - slot,
    {
        if s.fault_waiters[slot] {
            let _ = unblock_deferred(s, TaskId(slot));
        }
        assert(s.tasks@ =~= alerted_table(old(s).tasks@, s.fault_waiters@, slot + 1));
        slot += 1;
    }
}

/// Give up on a faulted task and let the reaper have its memory.
///
/// Separate from faulting, so that stopping a task and discarding it are
/// different decisions.
pub fn kill(s: &mut Scheduler, id: TaskId)
    requires
        old(s).wf(),
        id.0 < MAX_TASKS,
    ensures
        final(s).wf(),
        final(s).same_rest(old(s)),
        final(s).tasks@ == if in_state(old(s).tasks@, id.0 as int, State::Faulted) {
            with_state(old(s).tasks@, id.0 as int, State::Zombie)
        } else {
            old(s).tasks@
        },
{
    if is_faulted(s, id) {
        set_state(s, id.0, State::Zombie);
    }
}

// ---------------------------------------------------------------------------
// What tasks own.
// ---------------------------------------------------------------------------

/// The frames of a task's kernel stack, while it holds one.
pub open spec fn stack_claim(task: Task) -> Set<int> {
    if task.owns_stack && task.state != State::Dead {
        frames::run(task.stack.0 as int, 4)
    } else {
        Set::empty()
    }
}

/// The frames of a task's address space: its tables and what they map.
pub open spec fn space_claim(m: Memory, task: Task) -> Set<int> {
    match task.space {
        Some(space) => paging::owned(m, space.root.0 as int),
        None => Set::empty(),
    }
}

/// Everything the task in a slot owns.
pub open spec fn claim(m: Memory, slot: Option<Task>) -> Set<int> {
    match slot {
        Some(task) => stack_claim(task).union(space_claim(m, task)),
        None => Set::empty(),
    }
}

/// What a task that still has a program to be restarted from holds: a stack of
/// its own, a program that fits its page, and an address space of the size of
/// the one that a restart puts in its place.
pub open spec fn replaceable(m: Memory, task: Task) -> bool {
    &&& task.owns_stack
    &&& task.image->0.text@.len() <= 4096
    &&& task.space is Some
    &&& space_claim(m, task).len() == USER_SPACE_FRAMES
}

/// A task owns its stack and its address space separately, every frame of them
/// is a frame of memory, and a reaped task owns no address space. One with a
/// program to be restarted from has what that takes.
pub open spec fn sound_task(m: Memory, slot: Option<Task>) -> bool {
    match slot {
        Some(task) => {
            &&& task.owns_stack ==> task.stack.0 % 4096 == 0
            &&& stack_claim(task).disjoint(space_claim(m, task))
            &&& task.state == State::Dead ==> task.space is None
            &&& task.image is Some && task.state != State::Dead ==> replaceable(m, task)
            &&& match task.space {
                Some(space) => {
                    &&& paging::tree(m, space.root.0 as int, 0)
                    &&& paging::private(m, space.root.0 as int, 0)
                    &&& paging::tables(m, space.root.0 as int, 0).disjoint(
                        paging::leaves(m, space.root.0 as int, 0),
                    )
                },
                None => true,
            }
            &&& forall|q: int| #[trigger]
                claim(m, slot).contains(q) ==> q % 4096 == 0 && m.has(q, 4096)
        },
        None => true,
    }
}

/// No frame has two owners.
pub open spec fn isolated(m: Memory, tasks: Seq<Option<Task>>) -> bool {
    &&& forall|i: int| 0 <= i < tasks.len() ==> sound_task(m, #[trigger] tasks[i])
    &&& forall|i: int, j: int|
        0 <= i < tasks.len() && 0 <= j < tasks.len() && i != j ==> claim(
            m,
            #[trigger] tasks[i],
        ).disjoint(claim(m, #[trigger] tasks[j]))
}

/// A frame of an address space that EL0 can reach is nobody else's, and is no
/// table.
pub open spec fn data_frames(m: Memory, tasks: Seq<Option<Task>>, i: int) -> Set<int> {
    match root_of(tasks, i) {
        Some(root) => paging::leaves(m, root.0 as int, 0),
        None => Set::empty(),
    }
}

/// What one task's state says about ownership does not depend on being
/// runnable, blocked, faulted or a zombie.
pub proof fn lemma_isolated_states(m: Memory, one: Seq<Option<Task>>, two: Seq<Option<Task>>)
    requires
        isolated(m, one),
        one.len() == two.len(),
        forall|i: int| 0 <= i < one.len() ==> same_owner(one[i], #[trigger] two[i]),
    ensures
        isolated(m, two),
        forall|i: int| 0 <= i < one.len() ==> claim(m, one[i]) == claim(m, #[trigger] two[i]),
{
    assert forall|i: int| 0 <= i < one.len() implies claim(m, one[i]) == claim(
        m,
        #[trigger] two[i],
    ) && sound_task(m, two[i]) by {
        assert(same_owner(one[i], two[i]));
        assert(sound_task(m, one[i]));
    }
    assert forall|i: int, j: int|
        0 <= i < two.len() && 0 <= j < two.len() && i != j implies claim(
        m,
        #[trigger] two[i],
    ).disjoint(claim(m, #[trigger] two[j])) by {
        assert(claim(m, one[i]).disjoint(claim(m, one[j])));
        assert(claim(m, two[i]) == claim(m, one[i]));
        assert(claim(m, two[j]) == claim(m, one[j]));
    }
}

/// The two slots hold the same resources.
pub open spec fn same_owner(one: Option<Task>, two: Option<Task>) -> bool {
    match (one, two) {
        (Some(a), Some(b)) => {
            &&& a.space == b.space
            &&& a.stack == b.stack
            &&& a.owns_stack == b.owns_stack
            &&& a.image == b.image
            &&& (a.state == State::Dead) == (b.state == State::Dead)
        },
        (None, None) => true,
        _ => false,
    }
}

/// Writing where no table is leaves every address space, and so every owner,
/// as it was.
pub proof fn lemma_isolated_memory(m1: Memory, m2: Memory, tasks: Seq<Option<Task>>, s: Set<int>)
    requires
        isolated(m1, tasks),
        paging::changed_within(m1, m2, s),
        forall|i: int|
            0 <= i < tasks.len() && (#[trigger] tasks[i]) is Some && tasks[i]->0.space is Some
                ==> s.disjoint(paging::tables(m1, tasks[i]->0.space->0.root.0 as int, 0)),
    ensures
        isolated(m2, tasks),
        forall|i: int|
            0 <= i < tasks.len() ==> claim(m2, #[trigger] tasks[i]) == claim(m1, tasks[i]),
        forall|i: int, va: u64|
            0 <= i < tasks.len() && (#[trigger] tasks[i]) is Some && tasks[i]->0.space is Some
                ==> #[trigger] paging::stop(m2, tasks[i]->0.space->0.root.0 as int, va, 0)
                == paging::stop(m1, tasks[i]->0.space->0.root.0 as int, va, 0),
{
    assert forall|i: int| 0 <= i < tasks.len() implies claim(m2, #[trigger] tasks[i]) == claim(
        m1,
        tasks[i],
    ) && sound_task(m2, tasks[i]) by {
        assert(sound_task(m1, tasks[i]));
        match tasks[i] {
            Some(task) => match task.space {
                Some(space) => {
                    paging::lemma_untouched(m1, m2, space.root.0 as int, s);
                },
                None => {},
            },
            None => {},
        }
        assert(claim(m2, tasks[i]) =~= claim(m1, tasks[i]));
    }
    assert forall|i: int, j: int|
        0 <= i < tasks.len() && 0 <= j < tasks.len() && i != j implies claim(
        m2,
        #[trigger] tasks[i],
    ).disjoint(claim(m2, #[trigger] tasks[j])) by {
        assert(claim(m1, tasks[i]).disjoint(claim(m1, tasks[j])));
        assert(claim(m2, tasks[i]) == claim(m1, tasks[i]));
        assert(claim(m2, tasks[j]) == claim(m1, tasks[j]));
    }
    assert forall|i: int, va: u64|
        0 <= i < tasks.len() && (#[trigger] tasks[i]) is Some && tasks[i]->0.space is Some implies
        #[trigger] paging::stop(m2, tasks[i]->0.space->0.root.0 as int, va, 0) == paging::stop(
        m1,
        tasks[i]->0.space->0.root.0 as int,
        va,
        0,
    ) by {
        assert(sound_task(m1, tasks[i]));
        paging::lemma_untouched(m1, m2, tasks[i]->0.space->0.root.0 as int, s);
    }
}

// ---------------------------------------------------------------------------
// The kernel: memory, frames, and the tasks that own them.
// ---------------------------------------------------------------------------

/// Everything switching and spawning work on.
pub struct Kernel {
    pub frames: Allocator,
    pub memory: Memory,
    pub scheduler: Scheduler,
    /// The low half of tasks that have none of their own. Empty, so every low
    /// address faults.
    pub empty_space: Option<AddressSpace>,
    /// What is added to a physical address to reach it.
    pub offset: u64,
    /// Where a task that has never run begins.
    pub trampoline: u64,
    /// The kernel side of a user task.
    pub user_entry: u64,
}

/// The fallback address space maps nothing, and nobody owns its root.
pub open spec fn empty_ok(
    m: Memory,
    taken: Set<int>,
    tasks: Seq<Option<Task>>,
    empty: Option<AddressSpace>,
) -> bool {
    match empty {
        Some(space) => {
            let root = space.root.0 as int;
            &&& taken.contains(root)
            &&& paging::tree(m, root, 0)
            &&& paging::tables(m, root, 0) == set![root]
            &&& forall|va: u64| #[trigger] paging::stop(m, root, va, 0) == (0int, 0u64)
            &&& forall|i: int|
                0 <= i < tasks.len() ==> !claim(m, #[trigger] tasks[i]).contains(root)
        },
        None => true,
    }
}

/// Only a task that has come to its end has an exit code.
pub open spec fn coded(tasks: Seq<Option<Task>>) -> bool {
    forall|i: int|
        0 <= i < tasks.len() && (#[trigger] tasks[i]) is Some && tasks[i]->0.exit_code is Some
            ==> tasks[i]->0.state == State::Zombie || tasks[i]->0.state == State::Dead
}

/// Has the task in slot `i` exited? All it does from then on is give up the
/// CPU: it makes no calls, waits for nothing and cannot fault.
pub open spec fn has_exited(tasks: Seq<Option<Task>>, i: int) -> bool {
    0 <= i < tasks.len() && tasks[i] is Some && tasks[i]->0.exit_code is Some
}

/// Every frame has at most one owner, and every owned frame is taken.
pub open spec fn settled(
    m: Memory,
    taken: Set<int>,
    tasks: Seq<Option<Task>>,
    empty: Option<AddressSpace>,
) -> bool {
    &&& isolated(m, tasks)
    &&& forall|i: int|
        0 <= i < tasks.len() ==> claim(m, #[trigger] tasks[i]).subset_of(taken)
    &&& empty_ok(m, taken, tasks, empty)
}

impl Kernel {
    /// The machine is sound, and every frame is accounted for.
    pub open spec fn wf(&self) -> bool {
        &&& paging::machine(&self.frames, &self.memory)
        &&& self.scheduler.wf()
        &&& self.offset + self.frames.base() + self.frames.length() <= u64::MAX
        &&& settled(
            self.memory,
            self.frames.taken(),
            self.scheduler.tasks@,
            self.empty_space,
        )
        &&& coded(self.scheduler.tasks@)
    }

    /// The fixed parts are unchanged.
    pub open spec fn same_setup(&self, other: &Kernel) -> bool {
        &&& self.offset == other.offset
        &&& self.trampoline == other.trampoline
        &&& self.user_entry == other.user_entry
        &&& self.empty_space == other.empty_space
        &&& self.frames.same_machine(&other.frames)
    }
}

/// Writing to frames that nobody had leaves every owner as it was.
proof fn lemma_settled_fresh(
    m1: Memory,
    m2: Memory,
    taken1: Set<int>,
    taken2: Set<int>,
    tasks: Seq<Option<Task>>,
    empty: Option<AddressSpace>,
    s: Set<int>,
)
    requires
        settled(m1, taken1, tasks, empty),
        paging::changed_within(m1, m2, s),
        s.disjoint(taken1),
        taken1.subset_of(taken2),
    ensures
        settled(m2, taken2, tasks, empty),
        forall|i: int|
            0 <= i < tasks.len() ==> claim(m2, #[trigger] tasks[i]) == claim(m1, tasks[i]),
{
    assert forall|i: int|
        0 <= i < tasks.len() && (#[trigger] tasks[i]) is Some && tasks[i]->0.space is Some implies
        s.disjoint(paging::tables(m1, tasks[i]->0.space->0.root.0 as int, 0)) by {
        assert(claim(m1, tasks[i]).subset_of(taken1));
        assert forall|q: int| s.contains(q) implies !paging::tables(
            m1,
            tasks[i]->0.space->0.root.0 as int,
            0,
        ).contains(q) by {
            if paging::tables(m1, tasks[i]->0.space->0.root.0 as int, 0).contains(q) {
                assert(claim(m1, tasks[i]).contains(q));
            }
        }
    }
    lemma_isolated_memory(m1, m2, tasks, s);
    assert forall|i: int| 0 <= i < tasks.len() implies claim(m2, #[trigger] tasks[i]).subset_of(
        taken2,
    ) by {
        assert(claim(m1, tasks[i]).subset_of(taken1));
    }
    match empty {
        Some(space) => {
            paging::lemma_untouched(m1, m2, space.root.0 as int, s);
            assert forall|i: int| 0 <= i < tasks.len() implies !claim(
                m2,
                #[trigger] tasks[i],
            ).contains(space.root.0 as int) by {
                assert(!claim(m1, tasks[i]).contains(space.root.0 as int));
            }
        },
        None => {},
    }
}

/// Changing what tasks are doing, and not what they own, keeps everything
/// accounted for.
pub proof fn lemma_settled_states(
    m: Memory,
    taken: Set<int>,
    one: Seq<Option<Task>>,
    two: Seq<Option<Task>>,
    empty: Option<AddressSpace>,
)
    requires
        settled(m, taken, one, empty),
        one.len() == two.len(),
        forall|i: int| 0 <= i < one.len() ==> same_owner(one[i], #[trigger] two[i]),
    ensures
        settled(m, taken, two, empty),
{
    lemma_isolated_states(m, one, two);
    assert forall|i: int| 0 <= i < two.len() implies claim(m, #[trigger] two[i]).subset_of(
        taken,
    ) by {
        assert(claim(m, one[i]).subset_of(taken));
        assert(claim(m, one[i]) == claim(m, two[i]));
    }
    match empty {
        Some(space) => {
            assert forall|i: int| 0 <= i < two.len() implies !claim(
                m,
                #[trigger] two[i],
            ).contains(space.root.0 as int) by {
                assert(!claim(m, one[i]).contains(space.root.0 as int));
                assert(claim(m, one[i]) == claim(m, two[i]));
            }
        },
        None => {},
    }
}

/// Giving frames back that one slot owned, and emptying the slot of them,
/// keeps everything accounted for.
proof fn lemma_settled_shed(
    m: Memory,
    taken1: Set<int>,
    taken2: Set<int>,
    one: Seq<Option<Task>>,
    two: Seq<Option<Task>>,
    i: int,
    empty: Option<AddressSpace>,
)
    requires
        settled(m, taken1, one, empty),
        0 <= i < one.len() == two.len(),
        two == one.update(i, two[i]),
        claim(m, two[i]).subset_of(claim(m, one[i])),
        sound_task(m, two[i]),
        taken2 == taken1.difference(claim(m, one[i]).difference(claim(m, two[i]))),
    ensures
        settled(m, taken2, two, empty),
{
    assert forall|j: int| 0 <= j < two.len() implies sound_task(m, #[trigger] two[j]) by {
        if j != i {
            assert(sound_task(m, one[j]));
        }
    }
    assert forall|j: int, k: int|
        0 <= j < two.len() && 0 <= k < two.len() && j != k implies claim(
        m,
        #[trigger] two[j],
    ).disjoint(claim(m, #[trigger] two[k])) by {
        assert(claim(m, one[j]).disjoint(claim(m, one[k])));
    }
    assert forall|j: int| 0 <= j < two.len() implies claim(m, #[trigger] two[j]).subset_of(
        taken2,
    ) by {
        assert(claim(m, one[j]).subset_of(taken1));
        if j != i {
            assert(claim(m, one[j]).disjoint(claim(m, one[i])));
        }
    }
    match empty {
        Some(space) => {
            let root = space.root.0 as int;
            assert(!claim(m, one[i]).contains(root));
            assert forall|j: int| 0 <= j < two.len() implies !claim(
                m,
                #[trigger] two[j],
            ).contains(root) by {
                assert(!claim(m, one[j]).contains(root));
            }
        },
        None => {},
    }
}

/// Frames of any task that EL0 can reach.
pub open spec fn reached(m: Memory, tasks: Seq<Option<Task>>) -> Set<int> {
    Set::new(
        |q: int|
            exists|i: int| 0 <= i < tasks.len() && #[trigger] data_frames(m, tasks, i).contains(q),
    )
}

/// Memory differs only in frames that EL0 can reach, and tasks differ only in
/// what they are doing.
pub open spec fn touched(
    m1: Memory,
    one: Seq<Option<Task>>,
    m2: Memory,
    two: Seq<Option<Task>>,
) -> bool {
    &&& paging::changed_within(m1, m2, reached(m1, one))
    &&& one.len() == two.len()
    &&& forall|i: int| 0 <= i < one.len() ==> same_owner(one[i], #[trigger] two[i])
}

/// Writing to what one task can reach is writing to what some task can reach.
pub proof fn lemma_reached(m1: Memory, m2: Memory, tasks: Seq<Option<Task>>, i: int)
    requires
        0 <= i < tasks.len(),
        paging::changed_within(m1, m2, data_frames(m1, tasks, i)),
    ensures
        paging::changed_within(m1, m2, reached(m1, tasks)),
{
    assert forall|q: int|
        m1.has(q, 1) && !reached(m1, tasks).contains(
            frames::round_down(q),
        ) implies #[trigger] m2.byte_at(q) == m1.byte_at(q) by {
        assert(!data_frames(m1, tasks, i).contains(frames::round_down(q)));
    }
}

/// What EL0 can reach holds no table.
proof fn lemma_reached_apart(m: Memory, tasks: Seq<Option<Task>>)
    requires
        isolated(m, tasks),
    ensures
        forall|j: int|
            0 <= j < tasks.len() && (#[trigger] tasks[j]) is Some && tasks[j]->0.space is Some
                ==> reached(m, tasks).disjoint(
                paging::tables(m, tasks[j]->0.space->0.root.0 as int, 0),
            ),
{
    let s = reached(m, tasks);
    assert forall|j: int|
        0 <= j < tasks.len() && (#[trigger] tasks[j]) is Some && tasks[j]->0.space is Some implies
        s.disjoint(paging::tables(m, tasks[j]->0.space->0.root.0 as int, 0)) by {
        let tables = paging::tables(m, tasks[j]->0.space->0.root.0 as int, 0);
        assert(sound_task(m, tasks[j]));
        assert forall|q: int| s.contains(q) implies !tables.contains(q) by {
            if tables.contains(q) {
                let i = choose|i: int|
                    0 <= i < tasks.len() && #[trigger] data_frames(m, tasks, i).contains(q);
                assert(claim(m, tasks[j]).contains(q));
                assert(claim(m, tasks[i]).contains(q));
                if i != j {
                    assert(claim(m, tasks[i]).disjoint(claim(m, tasks[j])));
                }
            }
        }
    }
}

/// Writing to what tasks can reach, and changing what they are doing, keeps
/// everything accounted for.
pub proof fn lemma_settled_touched(
    m1: Memory,
    m2: Memory,
    taken: Set<int>,
    one: Seq<Option<Task>>,
    two: Seq<Option<Task>>,
    empty: Option<AddressSpace>,
)
    requires
        settled(m1, taken, one, empty),
        touched(m1, one, m2, two),
    ensures
        settled(m2, taken, two, empty),
{
    let s = reached(m1, one);
    lemma_reached_apart(m1, one);
    match empty {
        Some(space) => {
            let root = space.root.0 as int;
            if s.contains(root) {
                let i = choose|i: int|
                    0 <= i < one.len() && #[trigger] data_frames(m1, one, i).contains(root);
                assert(claim(m1, one[i]).contains(root));
            }
        },
        None => {},
    }
    lemma_settled_written(m1, m2, taken, one, empty, s);
    lemma_settled_states(m2, taken, one, two, empty);
}

// ---------------------------------------------------------------------------
// Reaping.
// ---------------------------------------------------------------------------

/// Is the task in slot `i` ready to be reaped: finished, and not running?
///
/// The exclusion is not a detail. A task that has exited is still executing on
/// its kernel stack until it switches away.
pub open spec fn reapable(tasks: Seq<Option<Task>>, current: int, i: int) -> bool {
    i != current && in_state(tasks, i, State::Zombie)
}

/// The table once every reapable task below `n` has been reaped: the slot and
/// the exit code stay behind.
pub open spec fn reaped_table(tasks: Seq<Option<Task>>, current: int, n: int) -> Seq<Option<Task>> {
    Seq::new(
        tasks.len(),
        |i: int|
            if i < n && reapable(tasks, current, i) {
                Some(Task { state: State::Dead, space: None, ..tasks[i]->0 })
            } else {
                tasks[i]
            },
    )
}

/// The frames that reaping slots below `n` gives back.
pub open spec fn salvage(m: Memory, tasks: Seq<Option<Task>>, current: int, n: int) -> Set<int> {
    Set::new(
        |q: int|
            exists|i: int|
                0 <= i < n && #[trigger] reapable(tasks, current, i) && claim(m, tasks[i]).contains(
                    q,
                ),
    )
}

/// Return the resources of one finished task.
fn reap(k: &mut Kernel, slot: usize)
    requires
        old(k).wf(),
        slot < MAX_TASKS,
        in_state(old(k).scheduler.tasks@, slot as int, State::Zombie),
    ensures
        final(k).wf(),
        final(k).same_setup(old(k)),
        final(k).memory == old(k).memory,
        final(k).scheduler.same_rest(&old(k).scheduler),
        final(k).scheduler.tasks@ == old(k).scheduler.tasks@.update(
            slot as int,
            Some(
                Task {
                    state: State::Dead,
                    space: None,
                    ..old(k).scheduler.tasks@[slot as int]->0
                },
            ),
        ),
        final(k).frames.taken() == old(k).frames.taken().difference(
            claim(old(k).memory, old(k).scheduler.tasks@[slot as int]),
        ),
{
    let ghost m = k.memory;
    let ghost all = k.scheduler.tasks@;
    let ghost taken0 = k.frames.taken();
    let ghost gone = all[slot as int]->0;
    proof {
        assert(sound_task(m, all[slot as int]));
        assert(claim(m, all[slot as int]).subset_of(taken0));
    }
    let mut stack: Option<Frame> = None;
    let mut space: Option<AddressSpace> = None;
    match &mut k.scheduler.tasks[slot] {
        Some(task) => {
            task.state = State::Dead;
            if task.owns_stack {
                stack = Some(task.stack);
            }
            space = task.space.take();
        },
        None => {},
    }
    proof {
        assert(k.scheduler.tasks@ =~= all.update(
            slot as int,
            Some(Task { state: State::Dead, space: None, ..gone }),
        ));
        assert(stack is Some == gone.owns_stack);
        assert(space == gone.space);
    }
    match stack {
        Some(stack) => {
            frames::free_contiguous(&mut k.frames, stack, STACK_FRAMES);
        },
        None => {},
    }
    proof {
        assert(k.frames.taken() =~= taken0.difference(stack_claim(gone)));
    }
    match space {
        Some(space) => {
            assert(paging::owned(m, space.root.0 as int).subset_of(k.frames.taken())) by {
                assert(stack_claim(gone).disjoint(space_claim(m, gone)));
            }
            space.destroy(&mut k.frames, &k.memory);
        },
        None => {},
    }
    proof {
        assert(k.frames.taken() =~= taken0.difference(claim(m, all[slot as int])));
        let two = k.scheduler.tasks@;
        assert(claim(m, two[slot as int]) =~= Set::<int>::empty());
        assert(claim(m, all[slot as int]).difference(claim(m, two[slot as int])) =~= claim(
            m,
            all[slot as int],
        ));
        lemma_settled_shed(
            m,
            taken0,
            k.frames.taken(),
            all,
            two,
            slot as int,
            k.empty_space,
        );
    }
}

/// Return the resources of every finished task except the running one.
///
/// The table slot and the exit code stay behind, so a task that exited can
/// still be asked what it exited with.
pub fn reap_zombies(k: &mut Kernel)
    requires
        old(k).wf(),
    ensures
        final(k).wf(),
        final(k).same_setup(old(k)),
        final(k).memory == old(k).memory,
        final(k).scheduler.same_rest(&old(k).scheduler),
        final(k).scheduler.tasks@ == reaped_table(
            old(k).scheduler.tasks@,
            old(k).scheduler.current as int,
            8,
        ),
        final(k).frames.taken() == old(k).frames.taken().difference(
            salvage(
                old(k).memory,
                old(k).scheduler.tasks@,
                old(k).scheduler.current as int,
                8,
            ),
        ),
{
    let ghost m = k.memory;
    let ghost all = k.scheduler.tasks@;
    let ghost cur = k.scheduler.current as int;
    let ghost taken0 = k.frames.taken();
    let mut slot: usize = 0;
    proof {
        assert(all =~= reaped_table(all, cur, 0));
        assert(taken0 =~= taken0.difference(salvage(m, all, cur, 0)));
    }
    while slot < MAX_TASKS
        invariant
            slot <= MAX_TASKS,
            k.wf(),
            k.same_setup(old(k)),
            old(k).wf(),
            m == old(k).memory,
            all == old(k).scheduler.tasks@,
            cur == old(k).scheduler.current,
            taken0 == old(k).frames.taken(),
            k.memory == m,
            k.scheduler.same_rest(&old(k).scheduler),
            k.scheduler.tasks@ == reaped_table(all, cur, slot as int),
            k.frames.taken() == taken0.difference(salvage(m, all, cur, slot as int)),
        decreases MAX_TASKS - slot,
    {
        let ghost i = slot as int;
        let zombie: bool = match k.scheduler.state_of(slot) {
            Some(state) => state == State::Zombie,
            None => false,
        };
        if slot != k.scheduler.current && zombie {
            assert(reapable(all, cur, i));
            reap(k, slot);
        }
        proof {
            assert(k.scheduler.tasks@ =~= reaped_table(all, cur, i + 1));
            assert(k.frames.taken() =~= taken0.difference(salvage(m, all, cur, i + 1))) by {
                assert forall|q: int| salvage(m, all, cur, i + 1).contains(q) == (salvage(
                    m,
                    all,
                    cur,
                    i,
                ).contains(q) || reapable(all, cur, i) && claim(m, all[i]).contains(q)) by {
                    if salvage(m, all, cur, i + 1).contains(q) {
                        let j = choose|j: int|
                            0 <= j < i + 1 && #[trigger] reapable(all, cur, j) && claim(
                                m,
                                all[j],
                            ).contains(q);
                        if j < i {
                            assert(salvage(m, all, cur, i).contains(q));
                        }
                    }
                    if salvage(m, all, cur, i).contains(q) {
                        let j = choose|j: int|
                            0 <= j < i && #[trigger] reapable(all, cur, j) && claim(
                                m,
                                all[j],
                            ).contains(q);
                        assert(salvage(m, all, cur, i + 1).contains(q));
                    }
                }
            }
        }
        slot += 1;
    }
}

// ---------------------------------------------------------------------------
// Switching.
// ---------------------------------------------------------------------------

/// A switch to make: load the low half `root`, save the stack pointer into
/// task `from`, and resume task `to` at `resume_sp`.
#[derive(Clone, Copy, PartialEq, Eq, Debug, Structural)]
pub struct Handoff {
    pub from: usize,
    pub to: usize,
    pub resume_sp: u64,
    pub root: Frame,
}

/// A switch can be made: something can run, and if that is not the current
/// task, there is an address space to load for it.
pub open spec fn can_switch(
    tasks: Seq<Option<Task>>,
    current: int,
    empty: Option<AddressSpace>,
) -> bool {
    tasks[current] is Some ==> {
        &&& any_runnable(tasks)
        &&& forall|i: int| #[trigger]
            is_next(tasks, current, i) && i != current ==> tasks[i]->0.space is Some
                || empty is Some
    }
}

/// What a switch does, starting from the table `tasks`: the dead are reaped,
/// the next task is chosen, and the handoff to it, if it is another one, is
/// logged and returned.
pub open spec fn switched(
    before: &Kernel,
    tasks: Seq<Option<Task>>,
    after: &Kernel,
    reason: Reason,
    handoff: Option<Handoff>,
) -> bool {
    let current = before.scheduler.current as int;
    let next = choose|i: int| #[trigger] is_next(tasks, current, i);
    &&& after.same_setup(before)
    &&& after.memory == before.memory
    &&& after.scheduler.tasks@ == reaped_table(tasks, current, 8)
    &&& after.frames.taken() == before.frames.taken().difference(
        salvage(before.memory, tasks, current, 8),
    )
    &&& after.scheduler.supervisor == before.scheduler.supervisor
    &&& after.scheduler.fault_waiters == before.scheduler.fault_waiters
    &&& if tasks[current] is None || next == current {
        &&& handoff is None
        &&& after.scheduler.current == current
        &&& after.scheduler.log == before.scheduler.log
    } else {
        &&& after.scheduler.current == next
        &&& after.scheduler.log.noted(&before.scheduler.log, current, next, reason)
        &&& handoff == Some(
            Handoff {
                from: current as usize,
                to: next as usize,
                resume_sp: tasks[next]->0.sp,
                root: match tasks[next]->0.space {
                    Some(space) => space.root,
                    None => before.empty_space->0.root,
                },
            },
        )
    }
}

/// There is at most one next task.
pub proof fn lemma_next_unique(tasks: Seq<Option<Task>>, current: int, i: int, j: int)
    requires
        is_next(tasks, current, i),
        is_next(tasks, current, j),
        tasks.len() == 8,
    ensures
        i == j,
{
    if i != j {
        assert(in_state(tasks, i, State::Runnable));
        assert(in_state(tasks, j, State::Runnable));
    }
}

/// Reaping does not change who can run.
proof fn lemma_reaped_next(tasks: Seq<Option<Task>>, current: int, i: int)
    requires
        tasks.len() == 8,
    ensures
        is_next(reaped_table(tasks, current, 8), current, i) == is_next(tasks, current, i),
        any_runnable(reaped_table(tasks, current, 8)) == any_runnable(tasks),
{
    let reaped = reaped_table(tasks, current, 8);
    assert forall|j: int| in_state(reaped, j, State::Runnable) == in_state(
        tasks,
        j,
        State::Runnable,
    ) by {}
    if any_runnable(tasks) {
        let j = choose|j: int| #[trigger] in_state(tasks, j, State::Runnable);
        assert(in_state(reaped, j, State::Runnable));
    }
    if any_runnable(reaped) {
        let j = choose|j: int| #[trigger] in_state(reaped, j, State::Runnable);
        assert(in_state(tasks, j, State::Runnable));
    }
    if is_next(tasks, current, i) {
        assert forall|j: int|
            in_state(reaped, j, State::Runnable) && j != i implies before(reaped, current, i, j) by {
            assert(in_state(tasks, j, State::Runnable));
        }
    }
    if is_next(reaped, current, i) {
        assert forall|j: int|
            in_state(tasks, j, State::Runnable) && j != i implies before(tasks, current, i, j) by {
            assert(in_state(reaped, j, State::Runnable));
        }
    }
}

/// Pick the next runnable task and switch to it, if there is one.
///
/// The dead are reaped first: every zombie's stack is by now memory nobody is
/// standing on.
pub fn switch_to_next(k: &mut Kernel, reason: Reason) -> (r: Option<Handoff>)
    requires
        old(k).wf(),
        can_switch(
            old(k).scheduler.tasks@,
            old(k).scheduler.current as int,
            old(k).empty_space,
        ),
    ensures
        final(k).wf(),
        switched(old(k), old(k).scheduler.tasks@, final(k), reason, r),
        final(k).scheduler.need_resched == old(k).scheduler.need_resched,
{
    let ghost all = k.scheduler.tasks@;
    let ghost cur = k.scheduler.current as int;
    reap_zombies(k);
    let current: usize = k.scheduler.current;
    // Nothing to switch between before there is a first task.
    if k.scheduler.tasks[current].is_none() {
        return None;
    }
    let found: Option<usize> = k.scheduler.next_runnable();
    proof {
        let i = found->0 as int;
        lemma_reaped_next(all, cur, i);
        let next = choose|j: int| #[trigger] is_next(all, cur, j);
        assert(is_next(all, cur, i));
        lemma_next_unique(all, cur, i, next);
    }
    let next: usize = found.unwrap();
    if next == current {
        return None;
    }
    k.scheduler.current = next;
    note_switch(&mut k.scheduler.log, current, next, reason);
    let (resume_sp, own): (u64, Option<Frame>) = match &k.scheduler.tasks[next] {
        Some(task) => (
            task.sp,
            match &task.space {
                Some(space) => Some(space.root()),
                None => None,
            },
        ),
        None => (0, None),
    };
    let root: Frame = match own {
        Some(root) => root,
        None => match &k.empty_space {
            Some(space) => space.root(),
            None => Frame(0),
        },
    };
    Some(Handoff { from: current, to: next, resume_sp, root })
}

/// Give up the CPU to the next runnable task.
pub fn yield_now(k: &mut Kernel) -> (r: Option<Handoff>)
    requires
        old(k).wf(),
        can_switch(
            old(k).scheduler.tasks@,
            old(k).scheduler.current as int,
            old(k).empty_space,
        ),
    ensures
        final(k).wf(),
        switched(old(k), old(k).scheduler.tasks@, final(k), Reason::Voluntary, r),
        final(k).scheduler.need_resched == old(k).scheduler.need_resched,
{
    switch_to_next(k, Reason::Voluntary)
}

/// Actually stop, if there is still anything to wait for.
///
/// Conditional on purpose: between marking and parking, the thing being waited
/// for may already have happened.
pub fn park(k: &mut Kernel) -> (r: Option<Handoff>)
    requires
        old(k).wf(),
        in_state(
            old(k).scheduler.tasks@,
            old(k).scheduler.current as int,
            State::Blocked,
        ) ==> can_switch(
            old(k).scheduler.tasks@,
            old(k).scheduler.current as int,
            old(k).empty_space,
        ),
    ensures
        final(k).wf(),
        if in_state(
            old(k).scheduler.tasks@,
            old(k).scheduler.current as int,
            State::Blocked,
        ) {
            &&& switched(old(k), old(k).scheduler.tasks@, final(k), Reason::Voluntary, r)
            &&& final(k).scheduler.need_resched == old(k).scheduler.need_resched
            &&& r is Some
        } else {
            r is None && *final(k) == *old(k)
        },
{
    let me = current_id(&k.scheduler);
    if is_blocked(&k.scheduler, me) {
        proof {
            let next = choose|i: int|
                #[trigger] is_next(
                    k.scheduler.tasks@,
                    k.scheduler.current as int,
                    i,
                );
            lemma_next_exists(k.scheduler.tasks@, k.scheduler.current as int);
            assert(is_next(k.scheduler.tasks@, k.scheduler.current as int, next));
        }
        switch_to_next(k, Reason::Voluntary)
    } else {
        None
    }
}

/// The best of a table's runnable tasks in slots below `n`.
proof fn lemma_next_below(tasks: Seq<Option<Task>>, current: int, n: int) -> (best: int)
    requires
        tasks.len() == 8,
        0 <= current < 8,
        0 <= n <= 8,
        exists|i: int| 0 <= i < n && #[trigger] in_state(tasks, i, State::Runnable),
    ensures
        in_state(tasks, best, State::Runnable),
        0 <= best < n,
        forall|j: int|
            #![trigger in_state(tasks, j, State::Runnable)]
            in_state(tasks, j, State::Runnable) && j != best && j < n ==> before(
                tasks,
                current,
                best,
                j,
            ),
    decreases n,
{
    if exists|i: int| 0 <= i < n - 1 && #[trigger] in_state(tasks, i, State::Runnable) {
        let b = lemma_next_below(tasks, current, n - 1);
        if in_state(tasks, n - 1, State::Runnable) && before(tasks, current, n - 1, b) {
            n - 1
        } else {
            assert(turn(current, b) != turn(current, n - 1));
            b
        }
    } else {
        n - 1
    }
}

/// If anything can run, something runs next.
pub proof fn lemma_next_exists(tasks: Seq<Option<Task>>, current: int)
    requires
        tasks.len() == 8,
        0 <= current < 8,
        any_runnable(tasks),
    ensures
        exists|i: int| #[trigger] is_next(tasks, current, i),
{
    let i = choose|i: int| #[trigger] in_state(tasks, i, State::Runnable);
    assert(0 <= i < 8);
    let best = lemma_next_below(tasks, current, 8);
    assert(is_next(tasks, current, best));
}

/// Take the current task out of the running until somebody puts it back.
///
/// A yielding task is asking to go last; a blocking task is asking not to be
/// considered at all. Priority does not rescue it.
pub fn block_current(k: &mut Kernel) -> (r: Option<Handoff>)
    requires
        old(k).wf(),
        !in_state(old(k).scheduler.tasks@, old(k).scheduler.current as int, State::Dead),
        !has_exited(old(k).scheduler.tasks@, old(k).scheduler.current as int),
        can_switch(
            blocked_table(old(k).scheduler.tasks@, old(k).scheduler.current as int),
            old(k).scheduler.current as int,
            old(k).empty_space,
        ),
    ensures
        final(k).wf(),
        if old(k).scheduler.tasks@[old(k).scheduler.current as int] is Some {
            &&& switched(
                old(k),
                blocked_table(old(k).scheduler.tasks@, old(k).scheduler.current as int),
                final(k),
                Reason::Voluntary,
                r,
            )
            &&& final(k).scheduler.need_resched == old(k).scheduler.need_resched
            &&& r is Some
        } else {
            r is None && *final(k) == *old(k)
        },
{
    let ghost all = k.scheduler.tasks@;
    mark_current_blocked(&mut k.scheduler);
    proof {
        lemma_settled_states(
            k.memory,
            k.frames.taken(),
            all,
            k.scheduler.tasks@,
            k.empty_space,
        );
    }
    park(k)
}

/// Put a blocked task back in the running, and hand it the CPU if it outranks
/// the caller.
///
/// That immediacy is the property the whole priority scheme exists for: a high
/// priority task runs as soon as it is runnable. It makes this a scheduling
/// point.
pub fn unblock(k: &mut Kernel, id: TaskId) -> (r: Option<Handoff>)
    requires
        old(k).wf(),
        wakes_above(
            old(k).scheduler.tasks@,
            old(k).scheduler.current as int,
            id.0 as int,
        ) ==> can_switch(
            woken_table(old(k).scheduler.tasks@, id.0 as int),
            old(k).scheduler.current as int,
            old(k).empty_space,
        ),
    ensures
        final(k).wf(),
        final(k).scheduler.need_resched == old(k).scheduler.need_resched,
        if wakes_above(
            old(k).scheduler.tasks@,
            old(k).scheduler.current as int,
            id.0 as int,
        ) {
            switched(
                old(k),
                woken_table(old(k).scheduler.tasks@, id.0 as int),
                final(k),
                Reason::Voluntary,
                r,
            )
        } else {
            &&& r is None
            &&& final(k).same_setup(old(k))
            &&& final(k).memory == old(k).memory
            &&& final(k).frames == old(k).frames
            &&& final(k).scheduler.same_rest(&old(k).scheduler)
            &&& final(k).scheduler.tasks@ == woken_table(
                old(k).scheduler.tasks@,
                id.0 as int,
            )
        },
{
    let ghost all = k.scheduler.tasks@;
    let above: bool = unblock_deferred(&mut k.scheduler, id);
    proof {
        lemma_settled_states(
            k.memory,
            k.frames.taken(),
            all,
            k.scheduler.tasks@,
            k.empty_space,
        );
    }
    if above {
        switch_to_next(k, Reason::Voluntary)
    } else {
        None
    }
}

/// Switch tasks if somebody asked for it.
///
/// Called after an interrupt has been released at the controller: switching
/// first would leave it active while another task runs.
pub fn preempt_if_needed(k: &mut Kernel) -> (r: Option<Handoff>)
    requires
        old(k).wf(),
        old(k).scheduler.need_resched ==> can_switch(
            old(k).scheduler.tasks@,
            old(k).scheduler.current as int,
            old(k).empty_space,
        ),
    ensures
        final(k).wf(),
        !final(k).scheduler.need_resched,
        if old(k).scheduler.need_resched {
            switched(old(k), old(k).scheduler.tasks@, final(k), Reason::Preemptive, r)
        } else {
            r is None && *final(k) == *old(k)
        },
{
    if !k.scheduler.need_resched {
        return None;
    }
    k.scheduler.need_resched = false;
    switch_to_next(k, Reason::Preemptive)
}

// ---------------------------------------------------------------------------
// Spawning.
// ---------------------------------------------------------------------------

/// Physical address of the switch frame of a task that has never run: the very
/// top of its stack.
pub open spec fn frame_at(stack: Frame) -> int {
    stack.0 + 16384 - 96
}

/// A stack wound back to look like a task that has never run: a canary at the
/// bottom, and at the top a switch frame that resumes at the trampoline with
/// the entry point and its argument in the first two saved registers and no
/// caller below.
pub open spec fn planted(m: Memory, stack: Frame, entry: u64, arg: u64, trampoline: u64) -> bool {
    &&& m.u64_at(stack.0 as int) == STACK_CANARY
    &&& m.u64_at(frame_at(stack)) == entry
    &&& m.u64_at(frame_at(stack) + 8) == arg
    &&& m.u64_at(frame_at(stack) + 80) == 0
    &&& m.u64_at(frame_at(stack) + 88) == trampoline
}

/// The bytes of a stack that winding it back writes: the canary, and the four
/// words of the switch frame.
pub open spec fn wound(stack: Frame, q: int) -> bool {
    ||| stack.0 <= q < stack.0 + 8
    ||| frame_at(stack) <= q < frame_at(stack) + 16
    ||| frame_at(stack) + 80 <= q < frame_at(stack) + 96
}

/// Every byte of a stack that winding it back does not write is zero.
pub open spec fn blank(m: Memory, stack: Frame) -> bool {
    forall|q: int|
        stack.0 <= q < stack.0 + 16384 && !wound(stack, q) ==> #[trigger] m.byte_at(q) == 0
}

/// Lay a fresh, never-run switch frame on a kernel stack and return the `sp`
/// that resumes it.
fn plant_switch_frame(
    memory: &mut Memory,
    stack: Frame,
    offset: u64,
    entry: u64,
    arg: u64,
    trampoline: u64,
) -> (sp: u64)
    requires
        old(memory).wf(),
        old(memory).has(stack.0 as int, 16384),
        offset + stack.0 + 16384 <= u64::MAX,
    ensures
        final(memory).wf(),
        sp == offset + frame_at(stack),
        final(memory).agrees_outside(old(memory), stack.0 as int, stack.0 + 16384),
        forall|q: int|
            #![trigger final(memory).byte_at(q)]
            final(memory).has(q, 1) && !wound(stack, q) ==> final(memory).byte_at(q) == old(
                memory,
            ).byte_at(q),
        planted(*final(memory), stack, entry, arg, trampoline),
{
    let base: u64 = stack.addr();
    let frame: u64 = base + STACK_SIZE - SWITCH_FRAME_WORDS * 8;
    let ghost top = frame_at(stack);
    memory.write_u64(base, STACK_CANARY);
    let ghost m1 = *memory;
    memory.write_u64(frame, entry);
    let ghost m2 = *memory;
    memory.write_u64(frame + 8, arg);
    let ghost m3 = *memory;
    // No caller below, so the frame pointer chain ends here.
    memory.write_u64(frame + 80, 0);
    let ghost m4 = *memory;
    memory.write_u64(frame + 88, trampoline);
    proof {
        let b = base as int;
        let m5 = *memory;
        m2.lemma_word_kept(&m1, top, top + 8, b);
        m3.lemma_word_kept(&m2, top + 8, top + 16, b);
        m3.lemma_word_kept(&m2, top + 8, top + 16, top);
        m4.lemma_word_kept(&m3, top + 80, top + 88, b);
        m4.lemma_word_kept(&m3, top + 80, top + 88, top);
        m4.lemma_word_kept(&m3, top + 80, top + 88, top + 8);
        m5.lemma_word_kept(&m4, top + 88, top + 96, b);
        m5.lemma_word_kept(&m4, top + 88, top + 96, top);
        m5.lemma_word_kept(&m4, top + 88, top + 96, top + 8);
        m5.lemma_word_kept(&m4, top + 88, top + 96, top + 80);
        assert forall|q: int|
            #![trigger m5.byte_at(q)]
            m5.has(q, 1) && !wound(stack, q) implies m5.byte_at(q) == old(memory).byte_at(q) by {
            assert(m5.byte_at(q) == m4.byte_at(q));
            assert(m4.byte_at(q) == m3.byte_at(q));
            assert(m3.byte_at(q) == m2.byte_at(q));
            assert(m2.byte_at(q) == m1.byte_at(q));
            assert(m1.byte_at(q) == old(memory).byte_at(q));
        }
    }
    paging::phys_to_virt(offset, frame)
}

/// An address space that a new task may be given: it owns what it maps, and
/// nobody else owns any of it.
pub open spec fn may_join(k: &Kernel, space: Option<AddressSpace>) -> bool {
    match space {
        Some(space) => {
            let root = space.root.0 as int;
            &&& paging::owns(k.memory, root, k.frames.taken())
            &&& forall|i: int|
                0 <= i < 8 ==> paging::owned(k.memory, root).disjoint(
                    claim(k.memory, #[trigger] k.scheduler.tasks@[i]),
                )
            &&& match k.empty_space {
                Some(empty) => !paging::owned(k.memory, root).contains(empty.root.0 as int),
                None => true,
            }
        },
        None => true,
    }
}

/// A program that a new task may be restarted from: it fits its page, and the
/// task has an address space of the size it will need again.
pub open spec fn may_restart(
    k: &Kernel,
    space: Option<AddressSpace>,
    image: Option<Image>,
) -> bool {
    image is Some ==> {
        &&& image->0.text@.len() <= 4096
        &&& space is Some
        &&& paging::owned(k.memory, space->0.root.0 as int).len() == USER_SPACE_FRAMES
    }
}

/// There is a slot and a stack for another task.
pub open spec fn has_room(k: &Kernel) -> bool {
    &&& exists|i: int| 0 <= i < 8 && (#[trigger] k.scheduler.tasks@[i]) is None
    &&& exists|q: int| #[trigger] k.frames.fits(q, 4)
}

/// Is there room for another task? Spawning one asks for it.
pub fn room(k: &Kernel) -> (r: bool)
    requires
        k.wf(),
    ensures
        r == has_room(k),
{
    if k.scheduler.free_slot().is_none() {
        return false;
    }
    frames::has_run(&k.frames, STACK_FRAMES, 0)
}

/// What spawning does: the lowest empty slot holds a task that has never run,
/// on the lowest run of free frames.
pub open spec fn spawned(
    before: &Kernel,
    after: &Kernel,
    id: TaskId,
    name: &'static str,
    entry: u64,
    arg: u64,
    space: Option<AddressSpace>,
    priority: Priority,
    image: Option<Image>,
) -> bool {
    let slot = id.0 as int;
    let stack = after.scheduler.tasks@[slot]->0.stack;
    &&& after.same_setup(before)
    &&& after.scheduler.same_rest(&before.scheduler)
    &&& slot < 8
    &&& before.scheduler.tasks@[slot] is None
    &&& forall|j: int| 0 <= j < slot ==> before.scheduler.tasks@[j] is Some
    &&& after.scheduler.tasks@ == before.scheduler.tasks@.update(
        slot,
        Some(
            Task {
                name,
                space,
                sp: (before.offset + frame_at(stack)) as u64,
                stack,
                owns_stack: true,
                priority,
                state: State::Runnable,
                exit_code: None,
                fault: None,
                image,
            },
        ),
    )
    &&& before.frames.fits(stack.0 as int, 4)
    &&& forall|q: int| #[trigger] before.frames.fits(q, 4) ==> stack.0 <= q
    &&& after.frames.taken() == before.frames.taken().union(frames::run(stack.0 as int, 4))
    &&& after.frames.free_count() == before.frames.free_count() - 4
    &&& after.memory.agrees_outside(&before.memory, stack.0 as int, stack.0 + 16384)
    &&& planted(after.memory, stack, entry, arg, before.trampoline)
    &&& blank(after.memory, stack)
}

/// Adding a task that owns frames nobody had keeps everything accounted for.
proof fn lemma_settled_join(
    m: Memory,
    taken: Set<int>,
    one: Seq<Option<Task>>,
    two: Seq<Option<Task>>,
    i: int,
    empty: Option<AddressSpace>,
)
    requires
        settled(m, taken, one, empty),
        0 <= i < one.len() == two.len(),
        two == one.update(i, two[i]),
        sound_task(m, two[i]),
        claim(m, two[i]).subset_of(taken),
        forall|j: int|
            0 <= j < one.len() && j != i ==> claim(m, two[i]).disjoint(claim(m, #[trigger] one[j])),
        match empty {
            Some(space) => !claim(m, two[i]).contains(space.root.0 as int),
            None => true,
        },
    ensures
        settled(m, taken, two, empty),
{
    assert forall|j: int| 0 <= j < two.len() implies sound_task(m, #[trigger] two[j]) by {
        if j != i {
            assert(sound_task(m, one[j]));
        }
    }
    assert forall|j: int, k: int|
        0 <= j < two.len() && 0 <= k < two.len() && j != k implies claim(
        m,
        #[trigger] two[j],
    ).disjoint(claim(m, #[trigger] two[k])) by {
        if j == i {
            assert(claim(m, two[i]).disjoint(claim(m, one[k])));
        } else if k == i {
            assert(claim(m, two[i]).disjoint(claim(m, one[j])));
        } else {
            assert(claim(m, one[j]).disjoint(claim(m, one[k])));
        }
    }
    assert forall|j: int| 0 <= j < two.len() implies claim(m, #[trigger] two[j]).subset_of(
        taken,
    ) by {
        if j != i {
            assert(claim(m, one[j]).subset_of(taken));
        }
    }
    match empty {
        Some(space) => {
            let root = space.root.0 as int;
            assert forall|j: int| 0 <= j < two.len() implies !claim(
                m,
                #[trigger] two[j],
            ).contains(root) by {
                if j != i {
                    assert(!claim(m, one[j]).contains(root));
                }
            }
        },
        None => {},
    }
}

/// Create a task that will begin at `entry(arg)` the next time it is chosen,
/// in an address space of its own if it is given one.
///
/// A new task has to look exactly like a suspended one, so resuming needs no
/// special case for the first run.
#[verifier::spinoff_prover]
#[verifier::rlimit(40)]
fn spawn_task(
    k: &mut Kernel,
    name: &'static str,
    entry: u64,
    arg: u64,
    space: Option<AddressSpace>,
    priority: Priority,
    image: Option<Image>,
) -> (id: TaskId)
    requires
        old(k).wf(),
        has_room(old(k)),
        may_join(old(k), space),
        may_restart(old(k), space, image),
    ensures
        final(k).wf(),
        spawned(old(k), final(k), id, name, entry, arg, space, priority, image),
{
    let ghost m0 = k.memory;
    let ghost all = k.scheduler.tasks@;
    let ghost taken0 = k.frames.taken();
    let ghost k0 = *k;
    proof {
        k.frames.lemma_facts();
    }
    let stack: Frame = frames::alloc_contiguous(
        &mut k.frames,
        &mut k.memory,
        STACK_FRAMES,
    ).unwrap();
    let ghost base = stack.0 as int;
    let ghost run4 = frames::run(base, 4);
    let ghost m1 = k.memory;
    proof {
        lemma_stack_frames(&k0.frames, stack, m0);
    }
    let sp: u64 = plant_switch_frame(
        &mut k.memory,
        stack,
        k.offset,
        entry,
        arg,
        k.trampoline,
    );
    let ghost m2 = k.memory;
    let slot: usize = k.scheduler.free_slot().unwrap();
    let ghost given = space;
    k.scheduler.tasks[slot] =
    Some(
        Task {
            name,
            space,
            sp,
            stack,
            owns_stack: true,
            priority,
            state: State::Runnable,
            exit_code: None,
            fault: None,
            image,
        },
    );
    proof {
        assert(paging::changed_within(m0, m2, run4)) by {
            assert forall|q: int|
                m0.has(q, 1) && !run4.contains(frames::round_down(q)) implies #[trigger] m2.byte_at(
                q,
            ) == m0.byte_at(q) by {
                lemma_outside_run(base, q);
                assert(m2.byte_at(q) == m1.byte_at(q));
                assert(m1.byte_at(q) == m0.byte_at(q));
            }
        }
        lemma_settled_spawn(&k0, m2, k.scheduler.tasks@, slot as int);
    }
    TaskId(slot)
}

/// A new task, on frames nobody had and in an address space nobody else has,
/// keeps everything accounted for.
#[verifier::spinoff_prover]
proof fn lemma_settled_spawn(k: &Kernel, m2: Memory, two: Seq<Option<Task>>, i: int)
    requires
        k.wf(),
        0 <= i < 8,
        two == k.scheduler.tasks@.update(i, two[i]),
        two[i] is Some,
        two[i]->0.owns_stack,
        two[i]->0.state == State::Runnable,
        may_join(k, two[i]->0.space),
        may_restart(k, two[i]->0.space, two[i]->0.image),
        k.frames.fits(two[i]->0.stack.0 as int, 4),
        paging::changed_within(k.memory, m2, frames::run(two[i]->0.stack.0 as int, 4)),
    ensures
        settled(
            m2,
            k.frames.taken().union(frames::run(two[i]->0.stack.0 as int, 4)),
            two,
            k.empty_space,
        ),
{
    let m0 = k.memory;
    let all = k.scheduler.tasks@;
    let taken0 = k.frames.taken();
    let task = two[i]->0;
    let run4 = frames::run(task.stack.0 as int, 4);
    let taken2 = taken0.union(run4);
    k.frames.lemma_facts();
    lemma_stack_frames(&k.frames, task.stack, m0);
    lemma_settled_fresh(m0, m2, taken0, taken2, all, k.empty_space, run4);
    let mine = space_claim(m2, task);
    match task.space {
        Some(sp) => {
            let root = sp.root.0 as int;
            assert(run4.disjoint(paging::tables(m0, root, 0))) by {
                assert forall|q: int| run4.contains(q) implies !paging::tables(
                    m0,
                    root,
                    0,
                ).contains(q) by {
                    if paging::tables(m0, root, 0).contains(q) {
                        assert(paging::owned(m0, root).contains(q));
                    }
                }
            }
            paging::lemma_untouched(m0, m2, root, run4);
            assert(mine =~= paging::owned(m0, root));
        },
        None => {},
    }
    assert(mine.subset_of(taken0));
    assert(run4.disjoint(mine));
    assert(claim(m2, two[i]) =~= run4.union(mine));
    assert forall|q: int| #[trigger] claim(m2, two[i]).contains(q) implies q % 4096 == 0 && m2.has(
        q,
        4096,
    ) by {
        if !run4.contains(q) {
            assert(taken0.contains(q));
            assert(frames::run(k.frames.base(), k.frames.count()).contains(q));
        }
    }
    assert(sound_task(m2, two[i]));
    assert forall|j: int| 0 <= j < 8 && j != i implies claim(m2, two[i]).disjoint(
        claim(m2, #[trigger] all[j]),
    ) by {
        assert(claim(m2, all[j]) == claim(m0, all[j]));
        assert(claim(m0, all[j]).subset_of(taken0));
        assert(mine.disjoint(claim(m0, all[j])));
    }
    match k.empty_space {
        Some(space) => {
            assert(taken0.contains(space.root.0 as int));
            assert(!mine.contains(space.root.0 as int));
        },
        None => {},
    }
    lemma_settled_join(m2, taken2, all, two, i, k.empty_space);
}

/// A run of four free frames is aligned, and inside memory.
proof fn lemma_stack_frames(a: &Allocator, stack: Frame, m: Memory)
    requires
        a.wf(),
        a.fits(stack.0 as int, 4),
        m.has(a.base(), a.length()),
        a.base() % 4096 == 0,
    ensures
        stack.0 % 4096 == 0,
        m.has(stack.0 as int, 16384),
        stack.0 + 16384 <= a.base() + a.length(),
        frames::run(stack.0 as int, 4).disjoint(a.taken()),
        forall|q: int| #[trigger]
            frames::run(stack.0 as int, 4).contains(q) ==> q % 4096 == 0 && m.has(q, 4096),
{
    a.lemma_facts();
    let b = stack.0 as int;
    assert(frames::run(b, 4).contains(b));
    assert(frames::run(b, 4).contains(b + 3 * 4096));
    assert(frames::run(a.base(), a.count()).contains(b));
    assert(frames::run(a.base(), a.count()).contains(b + 3 * 4096));
}

/// An address in no frame of a run is outside the run.
proof fn lemma_outside_run(base: int, q: int)
    requires
        base % 4096 == 0,
        !frames::run(base, 4).contains(frames::round_down(q)),
    ensures
        q < base || base + 4 * 4096 <= q,
{
    let f = frames::round_down(q);
    if base <= q < base + 4 * 4096 {
        assert(base <= f < base + 4 * 4096);
        assert((f - base) % 4096 == 0);
    }
}

/// Create a task in an address space of its own, if it is given one.
pub fn spawn_in(
    k: &mut Kernel,
    name: &'static str,
    entry: u64,
    arg: u64,
    space: Option<AddressSpace>,
    priority: Priority,
) -> (id: TaskId)
    requires
        old(k).wf(),
        has_room(old(k)),
        may_join(old(k), space),
    ensures
        final(k).wf(),
        spawned(old(k), final(k), id, name, entry, arg, space, priority, None),
{
    spawn_task(k, name, entry, arg, space, priority, None)
}

/// Create a task at a chosen priority.
pub fn spawn_at(
    k: &mut Kernel,
    name: &'static str,
    entry: u64,
    arg: u64,
    priority: Priority,
) -> (id: TaskId)
    requires
        old(k).wf(),
        has_room(old(k)),
    ensures
        final(k).wf(),
        spawned(old(k), final(k), id, name, entry, arg, None, priority, None),
{
    spawn_task(k, name, entry, arg, None, priority, None)
}

/// Create a task that will begin at `entry(arg)` the next time it is chosen.
pub fn spawn(k: &mut Kernel, name: &'static str, entry: u64, arg: u64) -> (id: TaskId)
    requires
        old(k).wf(),
        has_room(old(k)),
    ensures
        final(k).wf(),
        spawned(
            old(k),
            final(k),
            id,
            name,
            entry,
            arg,
            None,
            Priority(Priority::NORMAL),
            None,
        ),
{
    spawn_task(k, name, entry, arg, None, Priority(Priority::NORMAL), None)
}

// ---------------------------------------------------------------------------
// User programs.
// ---------------------------------------------------------------------------

/// Where user text is mapped in every user address space.
pub const USER_TEXT_VA: u64 = 0x40_0000;

/// Top of the user stack. Grows down into the page below.
pub const USER_STACK_TOP: u64 = 0x80_0000;

/// The page the user stack starts in.
pub const USER_STACK_VA: u64 = 0x7f_f000;

/// Where a user task's stack pointer starts: below the argument word, and
/// aligned to 16 bytes.
pub const USER_SP_START: u64 = 0x7f_fff0;

/// Frames an address space for a user program takes: a root, three tables down
/// to the text page, one more for the stack's own range, and the two pages.
pub const USER_SPACE_FRAMES: usize = 7;

/// Mapping one page is putting in one leaf.
proof fn lemma_one_page(
    s: spec_fn(u64) -> (int, u64),
    va: u64,
    pa: u64,
    attrs: Attributes,
)
    ensures
        paging::range_need(s, va as int, pa as int, 4096, attrs, 0) == paging::missing(s(va), 3),
        paging::range_clear(s, va as int, pa as int, 4096, attrs, 0) == !paging::blocked(s(va), 3),
        paging::range_vacant(s, va as int, pa as int, 4096, attrs, 0) == paging::vacant(s(va), 3),
        paging::range_after(s, va as int, pa as int, 4096, attrs, 0) == paging::with_leaf(
            s,
            va,
            3,
            paging::leaf_desc(pa, attrs, 3),
        ),
{
    reveal_with_fuel(paging::range_need, 2);
    reveal_with_fuel(paging::range_clear, 2);
    reveal_with_fuel(paging::range_vacant, 2);
    reveal_with_fuel(paging::range_after, 2);
}

/// Map one page of an address space, to a frame nothing else maps.
#[verifier::spinoff_prover]
#[verifier::rlimit(40)]
fn map_user_page(
    a: &mut Allocator,
    memory: &mut Memory,
    space: &AddressSpace,
    va: u64,
    page: Frame,
    attrs: Attributes,
)
    requires
        paging::machine(old(a), old(memory)),
        va < paging::KERNEL_BASE,
        va % 4096 == 0,
        attrs.clean(),
        paging::owns(*old(memory), space.root.0 as int, old(a).taken()),
        old(a).taken().contains(page.0 as int),
        !paging::owned(*old(memory), space.root.0 as int).contains(page.0 as int),
        paging::vacant(paging::stop(*old(memory), space.root.0 as int, va, 0), 3),
        paging::missing(paging::stop(*old(memory), space.root.0 as int, va, 0), 3) <= old(
            a,
        ).free_count(),
    ensures
        paging::machine(final(a), final(memory)),
        final(a).same_machine(old(a)),
        final(a).packed(old(a)),
        final(a).free_count() == old(a).free_count() - paging::missing(
            paging::stop(*old(memory), space.root.0 as int, va, 0),
            3,
        ),
        old(a).taken().subset_of(final(a).taken()),
        paging::owns(*final(memory), space.root.0 as int, final(a).taken()),
        paging::owned(*final(memory), space.root.0 as int) == paging::owned(
            *old(memory),
            space.root.0 as int,
        ).union(final(a).taken().difference(old(a).taken())).insert(page.0 as int),
        paging::leaves(*final(memory), space.root.0 as int, 0) == paging::leaves(
            *old(memory),
            space.root.0 as int,
            0,
        ).insert(page.0 as int),
        paging::changed_within(
            *old(memory),
            *final(memory),
            paging::tables(*final(memory), space.root.0 as int, 0),
        ),
        forall|v: u64| #[trigger]
            paging::stop(*final(memory), space.root.0 as int, v, 0) == paging::remap(
                paging::stop(*old(memory), space.root.0 as int, v, 0),
                paging::split(va, v, 0, 3),
                3,
                paging::leaf_desc(page.0, attrs, 3),
            ),
        forall|v: u64|
            paging::within(va, 4096, v) ==> #[trigger] paging::stop(
                *final(memory),
                space.root.0 as int,
                v,
                0,
            ) == (3int, paging::leaf_desc(page.0, attrs, 3)),
        forall|v: u64|
            !paging::within(va, 4096, v) ==> paging::same_leaf(
                #[trigger] paging::stop(*final(memory), space.root.0 as int, v, 0),
                paging::stop(*old(memory), space.root.0 as int, v, 0),
            ),
{
    let ghost m0 = *memory;
    let ghost taken0 = a.taken();
    let ghost root = space.root.0 as int;
    let ghost t0 = paging::tables(m0, root, 0);
    let ghost l0 = paging::leaves(m0, root, 0);
    let ghost one = frames::run(page.0 as int, 1);
    proof {
        a.lemma_facts();
        assert(frames::run(a.base(), a.count()).contains(page.0 as int));
        assert(frames::round_up(4096) == 4096);
        lemma_one_page(paging::walks(m0, root), va, page.0, attrs);
        assert(paging::walks(m0, root)(va) == paging::stop(m0, root, va, 0));
        assert(one =~= set![page.0 as int]);
        lemma_page_range(va, page.0, attrs);
    }
    space.map(a, memory, va, page.0, frames::FRAME_SIZE, attrs);
    proof {
        let m1 = *memory;
        let taken1 = a.taken();
        let t1 = paging::tables(m1, root, 0);
        let l1 = paging::leaves(m1, root, 0);
        assert(l1 =~= l0.insert(page.0 as int));
        assert(t1 =~= t0.union(taken1.difference(taken0)));
        assert(t1.disjoint(l1));
        assert(paging::owned(m1, root) =~= paging::owned(m0, root).union(
            taken1.difference(taken0),
        ).insert(page.0 as int));
        assert(one.disjoint(l0));
        assert forall|v: u64| paging::within(va, 4096, v) implies #[trigger] paging::stop(
            m1,
            root,
            v,
            0,
        ) == (3int, paging::leaf_desc(page.0, attrs, 3)) by {
            lemma_page_stop(va, page.0, attrs, v);
        }
        assert forall|v: u64| #[trigger] paging::stop(m1, root, v, 0) == paging::remap(
            paging::stop(m0, root, v, 0),
            paging::split(va, v, 0, 3),
            3,
            paging::leaf_desc(page.0, attrs, 3),
        ) by {
            assert(paging::with_leaf(
                paging::walks(m0, root),
                va,
                3,
                paging::leaf_desc(page.0, attrs, 3),
            )(v) == paging::remap(
                paging::walks(m0, root)(v),
                paging::split(va, v, 0, 3),
                3,
                paging::leaf_desc(page.0, attrs, 3),
            ));
        }
    }
}

/// One page in the low half can be mapped.
proof fn lemma_page_range(va: u64, pa: u64, attrs: Attributes)
    requires
        va % 4096 == 0,
        pa % 4096 == 0,
        pa + 4096 <= 0x1_0000_0000_0000,
        attrs.clean(),
    ensures
        paging::range_ok(va, pa, 4096, attrs),
{
    let w = paging::low(va);
    vstd::arithmetic::div_mod::lemma_fundamental_div_mod(va as int, 0x1_0000_0000_0000);
    let h = va as int / 0x1_0000_0000_0000;
    assert(w % 4096 == 0) by {
        assert(va == 4096 * (0x10_0000_0000 * h) + w);
    }
    assert(frames::round_up(4096) == 4096);
}

/// The leaf that maps a page.
proof fn lemma_page_stop(va: u64, pa: u64, attrs: Attributes, v: u64)
    requires
        paging::range_ok(va, pa, 4096, attrs),
        paging::within(va, 4096, v),
    ensures
        paging::range_stop(va, pa, 4096, attrs, v) == (
            3int,
            paging::leaf_desc(pa, attrs, 3),
        ),
{
    let w = paging::low(va);
    vstd::arithmetic::div_mod::lemma_fundamental_div_mod(va as int, 0x1_0000_0000_0000);
    let h = va as int / 0x1_0000_0000_0000;
    assert(w % 4096 == 0) by {
        assert(va == 4096 * (0x10_0000_0000 * h) + w);
    }
    assert(paging::low(v) / 0x1000 * 0x1000 == w);
}

/// What a user program finds when it starts: its text, read only and followed
/// by zeroes; a stack page of zeroes with its argument in the top word; and
/// nothing anywhere else.
#[verifier::opaque]
pub open spec fn user_image(m: Memory, root: int, text: Seq<u8>, arg: u64) -> bool {
    &&& forall|k: int|
        0 <= k < 4096 ==> match #[trigger] paging::byte_of(m, root, USER_TEXT_VA, k) {
            Some(pa) => m.byte_at(pa) == if k < text.len() {
                text[k]
            } else {
                0
            },
            None => false,
        }
    &&& forall|v: u64|
        USER_TEXT_VA <= v < USER_TEXT_VA + 4096 ==> {
            let s = #[trigger] paging::stop(m, root, v, 0);
            &&& paging::permits(s, false)
            &&& !paging::permits(s, true)
            &&& s.1 & paging::UXN == 0
            &&& s.1 & paging::PXN != 0
        }
    &&& forall|k: int|
        0 <= k < 4088 ==> match #[trigger] paging::byte_of(m, root, USER_STACK_VA, k) {
            Some(pa) => m.byte_at(pa) == 0,
            None => false,
        }
    &&& paging::byte_of(m, root, USER_STACK_VA, 4088) is Some
    &&& m.u64_at(paging::byte_of(m, root, USER_STACK_VA, 4088)->0) == arg
    &&& forall|v: u64|
        USER_STACK_VA <= v < USER_STACK_VA + 4096 ==> {
            let s = #[trigger] paging::stop(m, root, v, 0);
            &&& paging::permits(s, true)
            &&& s.1 & paging::UXN != 0
            &&& s.1 & paging::PXN != 0
        }
    &&& forall|v: u64|
        !paging::within(USER_TEXT_VA, 4096, v) && !paging::within(USER_STACK_VA, 4096, v)
            ==> !paging::valid((#[trigger] paging::stop(m, root, v, 0)).1)
}

/// The two pages of a user program use tables of their own below level 2.
proof fn lemma_user_split()
    ensures
        paging::split(USER_TEXT_VA, USER_STACK_VA, 0, 3) == 2,
        paging::low(USER_TEXT_VA) == USER_TEXT_VA,
        paging::low(USER_STACK_VA) == USER_STACK_VA,
{
    reveal_with_fuel(paging::split, 5);
    assert(paging::index(USER_TEXT_VA, 0) == 0 && paging::index(USER_STACK_VA, 0) == 0);
    assert(paging::index(USER_TEXT_VA, 1) == 0 && paging::index(USER_STACK_VA, 1) == 0);
    assert(paging::index(USER_TEXT_VA, 2) == 2 && paging::index(USER_STACK_VA, 2) == 3);
}

/// A page that a leaf maps, byte by byte.
proof fn lemma_page_bytes(m: Memory, root: int, va: u64, pa: u64, attrs: Attributes)
    requires
        paging::range_ok(va, pa, 4096, attrs),
        va < 0x1000_0000,
        forall|v: u64|
            paging::within(va, 4096, v) ==> #[trigger] paging::stop(m, root, v, 0) == (
                3int,
                paging::leaf_desc(pa, attrs, 3),
            ),
    ensures
        forall|k: int|
            0 <= k < 4096 ==> #[trigger] paging::byte_of(m, root, va, k) == Some(pa + k),
        forall|v: u64|
            va <= v < va + 4096 ==> {
                let s = #[trigger] paging::stop(m, root, v, 0);
                &&& paging::valid(s.1)
                &&& paging::access(s.1) == paging::access(attrs.0)
                &&& s.1 & paging::PXN == attrs.0 & paging::PXN
                &&& s.1 & paging::UXN == attrs.0 & paging::UXN
            },
{
    assert(frames::round_up(4096) == 4096);
    assert(paging::low(va) == va);
    assert forall|v: u64| va <= v < va + 4096 implies {
        let s = #[trigger] paging::stop(m, root, v, 0);
        &&& paging::valid(s.1)
        &&& paging::access(s.1) == paging::access(attrs.0)
        &&& s.1 & paging::PXN == attrs.0 & paging::PXN
        &&& s.1 & paging::UXN == attrs.0 & paging::UXN
        &&& paging::translation(s, v) == Some(pa + (v - va))
    } by {
        assert(paging::low(v) == v);
        assert(paging::within(va, 4096, v));
        lemma_page_stop(va, pa, attrs, v);
        paging::lemma_range_translates(va, pa, 4096, attrs, v);
    }
    assert forall|k: int| 0 <= k < 4096 implies #[trigger] paging::byte_of(m, root, va, k) == Some(
        pa + k,
    ) by {
        let v = (va + k) as u64;
        let s = paging::stop(m, root, v, 0);
        assert(paging::translation(s, v) == Some(pa + (v - va)));
    }
}

/// Give an address space a fresh page at `va` that holds `data` and then
/// zeroes.
#[verifier::spinoff_prover]
#[verifier::rlimit(40)]
fn add_page(
    a: &mut Allocator,
    memory: &mut Memory,
    space: &AddressSpace,
    va: u64,
    data: &[u8],
    attrs: Attributes,
) -> (page: Frame)
    requires
        paging::machine(old(a), old(memory)),
        va < paging::KERNEL_BASE,
        va % 4096 == 0,
        attrs.clean(),
        data@.len() <= 4096,
        paging::owns(*old(memory), space.root.0 as int, old(a).taken()),
        paging::vacant(paging::stop(*old(memory), space.root.0 as int, va, 0), 3),
        1 + paging::missing(paging::stop(*old(memory), space.root.0 as int, va, 0), 3) <= old(
            a,
        ).free_count(),
    ensures
        paging::machine(final(a), final(memory)),
        final(a).same_machine(old(a)),
        final(a).packed(old(a)),
        final(a).free_count() == old(a).free_count() - 1 - paging::missing(
            paging::stop(*old(memory), space.root.0 as int, va, 0),
            3,
        ),
        page.0 % 4096 == 0,
        page.0 + 4096 <= 0x1_0000_0000_0000,
        final(memory).has(page.0 as int, 4096),
        old(a).taken().subset_of(final(a).taken()),
        final(a).taken().contains(page.0 as int),
        !old(a).taken().contains(page.0 as int),
        paging::owns(*final(memory), space.root.0 as int, final(a).taken()),
        paging::owned(*final(memory), space.root.0 as int) == paging::owned(
            *old(memory),
            space.root.0 as int,
        ).union(final(a).taken().difference(old(a).taken())),
        paging::leaves(*final(memory), space.root.0 as int, 0) == paging::leaves(
            *old(memory),
            space.root.0 as int,
            0,
        ).insert(page.0 as int),
        paging::changed_within(
            *old(memory),
            *final(memory),
            paging::tables(*final(memory), space.root.0 as int, 0).insert(page.0 as int),
        ),
        forall|k: int|
            0 <= k < 4096 ==> #[trigger] final(memory).byte_at(page.0 + k) == if k < data@.len() {
                data@[k]
            } else {
                0
            },
        forall|v: u64| #[trigger]
            paging::stop(*final(memory), space.root.0 as int, v, 0) == paging::remap(
                paging::stop(*old(memory), space.root.0 as int, v, 0),
                paging::split(va, v, 0, 3),
                3,
                paging::leaf_desc(page.0, attrs, 3),
            ),
        forall|v: u64|
            paging::within(va, 4096, v) ==> #[trigger] paging::stop(
                *final(memory),
                space.root.0 as int,
                v,
                0,
            ) == (3int, paging::leaf_desc(page.0, attrs, 3)),
        forall|v: u64|
            !paging::within(va, 4096, v) ==> paging::same_leaf(
                #[trigger] paging::stop(*final(memory), space.root.0 as int, v, 0),
                paging::stop(*old(memory), space.root.0 as int, v, 0),
            ),
{
    let ghost m0 = *memory;
    let ghost taken0 = a.taken();
    let ghost root = space.root.0 as int;
    proof {
        a.lemma_facts();
        paging::lemma_stop_level(m0, root, va, 0);
    }
    let page = frames::alloc_frame(a, memory).unwrap();
    let ghost p = page.0 as int;
    let ghost zeroed = *memory;
    memory.write(page.addr(), data);
    let ghost m1 = *memory;
    let ghost a1 = *a;
    proof {
        a.lemma_facts();
        assert(m1.agrees_outside(&m0, p, p + 4096)) by {
            assert forall|q: int|
                !(p <= q < p + 4096) && m1.has(q, 1) implies #[trigger] m1.byte_at(q)
                == m0.byte_at(q) by {
                assert(m1.byte_at(q) == zeroed.byte_at(q));
                assert(zeroed.byte_at(q) == m0.byte_at(q));
            }
        }
        lemma_frame_written(m0, m1, page.0);
        assert(!paging::owned(m0, root).contains(p));
        paging::lemma_untouched(m0, m1, root, set![p]);
        assert(paging::owned(m1, root) =~= paging::owned(m0, root));
        assert forall|k: int| 0 <= k < 4096 implies #[trigger] m1.byte_at(p + k) == if k
            < data@.len() {
            data@[k]
        } else {
            0
        } by {
            if k < data@.len() {
                assert(m1.byte_at(p + k) == m1.slice_at(p, data@.len() as int)[k]);
            } else {
                assert(m1.byte_at(p + k) == zeroed.byte_at(p + k));
            }
        }
    }
    map_user_page(a, memory, space, va, page, attrs);
    proof {
        a.lemma_packed(&a1, old(a));
        let m2 = *memory;
        let taken2 = a.taken();
        let t2 = paging::tables(m2, root, 0);
        assert(!t2.contains(p)) by {
            assert(paging::leaves(m2, root, 0).contains(p));
        }
        lemma_page_kept(m1, m2, t2, page.0);
        assert(paging::owned(m2, root) =~= paging::owned(m0, root).union(
            taken2.difference(taken0),
        ));
        assert(paging::changed_within(m0, m2, t2.insert(p))) by {
            assert forall|q: int|
                m0.has(q, 1) && !t2.insert(p).contains(
                    frames::round_down(q),
                ) implies #[trigger] m2.byte_at(q) == m0.byte_at(q) by {
                assert(m2.byte_at(q) == m1.byte_at(q));
                assert(m1.byte_at(q) == m0.byte_at(q));
            }
        }
    }
    page
}

/// Build a fresh address space holding a user program and its stack.
///
/// Every frame in it comes from the allocator zeroed, so a task built this way
/// starts with memory that carries nothing from whatever used those frames
/// before.
#[verifier::spinoff_prover]
#[verifier::rlimit(80)]
fn build_user_space(a: &mut Allocator, memory: &mut Memory, text: &[u8], arg: u64) -> (space:
    AddressSpace)
    requires
        paging::machine(old(a), old(memory)),
        text@.len() <= 4096,
        old(a).free_count() >= USER_SPACE_FRAMES,
    ensures
        paging::machine(final(a), final(memory)),
        final(a).same_machine(old(a)),
        final(a).packed(old(a)),
        final(a).free_count() == old(a).free_count() - USER_SPACE_FRAMES,
        old(a).taken().subset_of(final(a).taken()),
        final(a).taken().difference(old(a).taken()).len() == USER_SPACE_FRAMES,
        paging::owns(*final(memory), space.root.0 as int, final(a).taken()),
        paging::owned(*final(memory), space.root.0 as int) == final(a).taken().difference(
            old(a).taken(),
        ),
        paging::changed_within(
            *old(memory),
            *final(memory),
            final(a).taken().difference(old(a).taken()),
        ),
        user_image(*final(memory), space.root.0 as int, text@, arg),
{
    let ghost m0 = *memory;
    let ghost taken0 = a.taken();
    let space = AddressSpace::new(a, memory);
    let ghost root = space.root.0 as int;
    let ghost m1 = *memory;
    let ghost a1 = *a;
    proof {
        assert(0u64 & 1u64 == 0) by (bit_vector);
        assert(paging::stop(m1, root, USER_TEXT_VA, 0) == (0int, 0u64));
    }
    let page = add_page(a, memory, &space, USER_TEXT_VA, text, Attributes::user_text());
    let ghost m2 = *memory;
    let ghost a2 = *a;
    let ghost p = page.0 as int;
    proof {
        a.lemma_packed(&a1, old(a));
        lemma_user_split();
        assert(paging::stop(m1, root, USER_STACK_VA, 0) == (0int, 0u64));
        assert(paging::stop(m2, root, USER_STACK_VA, 0) == (2int, 0u64));
    }
    let empty: Vec<u8> = Vec::new();
    let stack = add_page(
        a,
        memory,
        &space,
        USER_STACK_VA,
        empty.as_slice(),
        Attributes::user_data(),
    );
    let ghost m3 = *memory;
    let ghost s = stack.0 as int;
    proof {
        a.lemma_packed(&a2, old(a));
    }
    // The argument goes in through the kernel's own view of the frame: the
    // address space is not loaded, and will not be until it is scheduled.
    memory.write_u64(stack.addr() + 4088, arg);
    proof {
        let m4 = *memory;
        assert(m4.agrees_outside(&m3, s, s + 4096));
        lemma_frame_written(m3, m4, stack.0);
        assert(!paging::tables(m3, root, 0).contains(s)) by {
            assert(paging::leaves(m3, root, 0).contains(s));
        }
        paging::lemma_untouched(m3, m4, root, set![s]);
        assert(!paging::tables(m3, root, 0).contains(p)) by {
            assert(paging::leaves(m3, root, 0).contains(p));
        }
        let gone = a.taken().difference(taken0);
        assert(paging::owned(m4, root) =~= gone);
        lemma_user_memory(m0, m1, m2, m3, m4, root, p, s, gone);
        lemma_page_kept(m2, m3, paging::tables(m3, root, 0).insert(s), page.0);
        lemma_page_kept(m3, m4, set![s], page.0);
        assert forall|k: int| 0 <= k < 4096 implies #[trigger] m4.byte_at(p + k) == if k
            < text@.len() {
            text@[k]
        } else {
            0
        } by {
            assert(m4.byte_at(p + k) == m3.byte_at(p + k));
            assert(m3.byte_at(p + k) == m2.byte_at(p + k));
        }
        assert forall|k: int| 0 <= k < 4088 implies #[trigger] m4.byte_at(s + k) == 0 by {
            assert(m4.byte_at(s + k) == m3.byte_at(s + k));
        }
        lemma_user_walks(m1, m2, m3, root, page, stack);
        lemma_built_image(m4, root, page, stack, text@, arg);
        lemma_grown(old(a), a);
    }
    space
}

/// As many frames were taken as there are fewer free ones.
proof fn lemma_grown(a: &Allocator, b: &Allocator)
    requires
        a.wf(),
        b.wf(),
        b.same_machine(a),
        a.taken().subset_of(b.taken()),
    ensures
        b.taken().difference(a.taken()).len() == a.free_count() - b.free_count(),
{
    a.lemma_facts();
    b.lemma_facts();
    let new = b.taken().difference(a.taken());
    vstd::set_lib::lemma_set_disjoint_lens(a.taken(), new);
    assert(a.taken() + new =~= b.taken());
}

/// Building an address space touches the frames it took, and nothing else.
proof fn lemma_user_memory(
    m0: Memory,
    m1: Memory,
    m2: Memory,
    m3: Memory,
    m4: Memory,
    root: int,
    p: int,
    s: int,
    gone: Set<int>,
)
    requires
        paging::changed_within(m0, m1, set![root]),
        paging::changed_within(m1, m2, paging::tables(m2, root, 0).insert(p)),
        paging::changed_within(m2, m3, paging::tables(m3, root, 0).insert(s)),
        paging::changed_within(m3, m4, set![s]),
        gone.contains(root),
        gone.contains(p),
        gone.contains(s),
        paging::tables(m2, root, 0).subset_of(gone),
        paging::tables(m3, root, 0).subset_of(gone),
    ensures
        paging::changed_within(m0, m4, gone),
{
    assert forall|q: int|
        m0.has(q, 1) && !gone.contains(frames::round_down(q)) implies #[trigger] m4.byte_at(q)
        == m0.byte_at(q) by {
        assert(m1.byte_at(q) == m0.byte_at(q));
        assert(m2.byte_at(q) == m1.byte_at(q));
        assert(m3.byte_at(q) == m2.byte_at(q));
        assert(m4.byte_at(q) == m3.byte_at(q));
    }
}

/// What walks find once both pages of a user program are mapped.
proof fn lemma_user_walks(
    m1: Memory,
    m2: Memory,
    m3: Memory,
    root: int,
    page: Frame,
    stack: Frame,
)
    requires
        page.0 % 4096 == 0,
        page.0 + 4096 <= 0x1_0000_0000_0000,
        forall|v: u64| #[trigger] paging::stop(m1, root, v, 0) == (0int, 0u64),
        forall|v: u64|
            paging::within(USER_TEXT_VA, 4096, v) ==> #[trigger] paging::stop(m2, root, v, 0) == (
                3int,
                paging::leaf_desc(page.0, Attributes(paging::USER_TEXT), 3),
            ),
        forall|v: u64|
            !paging::within(USER_TEXT_VA, 4096, v) ==> paging::same_leaf(
                #[trigger] paging::stop(m2, root, v, 0),
                paging::stop(m1, root, v, 0),
            ),
        forall|v: u64|
            !paging::within(USER_STACK_VA, 4096, v) ==> paging::same_leaf(
                #[trigger] paging::stop(m3, root, v, 0),
                paging::stop(m2, root, v, 0),
            ),
    ensures
        forall|v: u64|
            paging::within(USER_TEXT_VA, 4096, v) ==> #[trigger] paging::stop(m3, root, v, 0) == (
                3int,
                paging::leaf_desc(page.0, Attributes(paging::USER_TEXT), 3),
            ),
        forall|v: u64|
            !paging::within(USER_TEXT_VA, 4096, v) && !paging::within(USER_STACK_VA, 4096, v)
                ==> !paging::valid((#[trigger] paging::stop(m3, root, v, 0)).1),
{
    let attrs = Attributes(paging::USER_TEXT);
    lemma_user_split();
    paging::lemma_user_attributes();
    assert(0u64 & 1u64 == 0) by (bit_vector);
    assert(frames::round_up(4096) == 4096);
    lemma_page_range(USER_TEXT_VA, page.0, attrs);
    assert forall|v: u64| paging::within(USER_TEXT_VA, 4096, v) implies #[trigger] paging::stop(
        m3,
        root,
        v,
        0,
    ) == (3int, paging::leaf_desc(page.0, attrs, 3)) by {
        assert(!paging::within(USER_STACK_VA, 4096, v));
        assert(paging::same_leaf(paging::stop(m3, root, v, 0), paging::stop(m2, root, v, 0)));
        lemma_page_stop(USER_TEXT_VA, page.0, attrs, v);
        paging::lemma_range_translates(USER_TEXT_VA, page.0, 4096, attrs, v);
    }
    assert forall|v: u64|
        !paging::within(USER_TEXT_VA, 4096, v) && !paging::within(
            USER_STACK_VA,
            4096,
            v,
        ) implies !paging::valid((#[trigger] paging::stop(m3, root, v, 0)).1) by {
        assert(paging::same_leaf(paging::stop(m3, root, v, 0), paging::stop(m2, root, v, 0)));
        assert(paging::same_leaf(paging::stop(m2, root, v, 0), paging::stop(m1, root, v, 0)));
    }
}

/// The two pages and where they are make the image.
#[verifier::spinoff_prover]
proof fn lemma_built_image(
    m: Memory,
    root: int,
    page: Frame,
    stack: Frame,
    text: Seq<u8>,
    arg: u64,
)
    requires
        page.0 % 4096 == 0,
        page.0 + 4096 <= 0x1_0000_0000_0000,
        stack.0 % 4096 == 0,
        stack.0 + 4096 <= 0x1_0000_0000_0000,
        forall|k: int|
            0 <= k < 4096 ==> #[trigger] m.byte_at(page.0 + k) == if k < text.len() {
                text[k]
            } else {
                0
            },
        forall|k: int| 0 <= k < 4088 ==> #[trigger] m.byte_at(stack.0 + k) == 0,
        m.u64_at(stack.0 + 4088) == arg,
        forall|v: u64|
            paging::within(USER_TEXT_VA, 4096, v) ==> #[trigger] paging::stop(m, root, v, 0) == (
                3int,
                paging::leaf_desc(page.0, Attributes(paging::USER_TEXT), 3),
            ),
        forall|v: u64|
            paging::within(USER_STACK_VA, 4096, v) ==> #[trigger] paging::stop(m, root, v, 0) == (
                3int,
                paging::leaf_desc(stack.0, Attributes(paging::USER_DATA), 3),
            ),
        forall|v: u64|
            !paging::within(USER_TEXT_VA, 4096, v) && !paging::within(USER_STACK_VA, 4096, v)
                ==> !paging::valid((#[trigger] paging::stop(m, root, v, 0)).1),
    ensures
        user_image(m, root, text, arg),
{
    reveal(user_image);
    let text_attrs = Attributes(paging::USER_TEXT);
    let stack_attrs = Attributes(paging::USER_DATA);
    paging::lemma_user_attributes();
    lemma_page_range(USER_TEXT_VA, page.0, text_attrs);
    lemma_page_range(USER_STACK_VA, stack.0, stack_attrs);
    lemma_page_bytes(m, root, USER_TEXT_VA, page.0, text_attrs);
    lemma_page_bytes(m, root, USER_STACK_VA, stack.0, stack_attrs);
    assert forall|k: int| 0 <= k < 4096 implies match #[trigger] paging::byte_of(
        m,
        root,
        USER_TEXT_VA,
        k,
    ) {
        Some(pa) => m.byte_at(pa) == if k < text.len() {
            text[k]
        } else {
            0
        },
        None => false,
    } by {
        assert(paging::byte_of(m, root, USER_TEXT_VA, k) == Some(page.0 + k));
    }
    assert forall|k: int| 0 <= k < 4088 implies match #[trigger] paging::byte_of(
        m,
        root,
        USER_STACK_VA,
        k,
    ) {
        Some(pa) => m.byte_at(pa) == 0,
        None => false,
    } by {
        assert(paging::byte_of(m, root, USER_STACK_VA, k) == Some(stack.0 + k));
    }
    assert(paging::byte_of(m, root, USER_STACK_VA, 4088) == Some(stack.0 + 4088));
}

/// A page is the same when what changed does not touch its frame.
proof fn lemma_page_kept(m1: Memory, m2: Memory, s: Set<int>, frame: u64)
    requires
        frame % 4096 == 0,
        m1.has(frame as int, 4096),
        paging::changed_within(m1, m2, s),
        !s.contains(frame as int),
    ensures
        forall|q: int|
            frame <= q < frame + 4096 ==> #[trigger] m2.byte_at(q) == m1.byte_at(q),
{
    assert forall|q: int| frame <= q < frame + 4096 implies #[trigger] m2.byte_at(q) == m1.byte_at(
        q,
    ) by {
        assert(frames::round_down(q) == frame);
    }
}

/// Writing inside one frame changes memory within that frame.
proof fn lemma_frame_written(m1: Memory, m2: Memory, frame: u64)
    requires
        frame % 4096 == 0,
        m2.agrees_outside(&m1, frame as int, frame + 4096),
    ensures
        paging::changed_within(m1, m2, set![frame as int]),
{
    assert forall|q: int|
        m1.has(q, 1) && !set![frame as int].contains(
            frames::round_down(q),
        ) implies #[trigger] m2.byte_at(q) == m1.byte_at(q) by {
        assert(frames::round_down(q) != frame);
    }
}

/// `m2` differs from `m1` in frames of `s` alone, none of which `root` owns.
spec fn apart(m1: Memory, m2: Memory, root: int, s: Set<int>) -> bool {
    &&& paging::tree(m1, root, 0)
    &&& paging::private(m1, root, 0)
    &&& forall|q: int| #[trigger] paging::leaves(m1, root, 0).contains(q) ==> m1.has(q, 4096)
    &&& paging::changed_within(m1, m2, s)
    &&& s.disjoint(paging::owned(m1, root))
}

/// Where a walk stops does not depend on frames its root does not own.
proof fn lemma_stops_kept(m1: Memory, m2: Memory, root: int, s: Set<int>)
    requires
        apart(m1, m2, root, s),
    ensures
        forall|va: u64| #[trigger]
            paging::stop(m2, root, va, 0) == paging::stop(m1, root, va, 0),
        paging::owned(m2, root) == paging::owned(m1, root),
{
    assert(s.disjoint(paging::tables(m1, root, 0))) by {
        assert forall|q: int| s.contains(q) implies !paging::tables(m1, root, 0).contains(q) by {
            if paging::tables(m1, root, 0).contains(q) {
                assert(paging::owned(m1, root).contains(q));
            }
        }
    }
    paging::lemma_untouched(m1, m2, root, s);
    assert(paging::owned(m2, root) =~= paging::owned(m1, root));
}

/// A byte a root maps stays where it is and what it is.
proof fn lemma_byte_kept(m1: Memory, m2: Memory, root: int, s: Set<int>, va: u64, k: int)
    requires
        apart(m1, m2, root, s),
    ensures
        paging::byte_of(m2, root, va, k) == paging::byte_of(m1, root, va, k),
        match paging::byte_of(m1, root, va, k) {
            Some(pa) => {
                let f = frames::round_down(pa);
                &&& m2.byte_at(pa) == m1.byte_at(pa)
                &&& paging::owned(m1, root).contains(f)
                &&& m1.has(f, 4096)
            },
            None => true,
        },
{
    lemma_stops_kept(m1, m2, root, s);
    let v = (va + k) as u64;
    assert(paging::stop(m2, root, v, 0) == paging::stop(m1, root, v, 0));
    paging::lemma_leaf_frame(m1, root, v, 0);
    match paging::byte_of(m1, root, va, k) {
        Some(pa) => {
            let f = frames::round_down(pa);
            assert(paging::leaves(m1, root, 0).contains(f));
            assert(paging::owned(m1, root).contains(f));
            assert(m1.has(f, 4096));
        },
        None => {},
    }
}

/// The argument word stays what it is.
proof fn lemma_argument_kept(m1: Memory, m2: Memory, root: int, s: Set<int>)
    requires
        apart(m1, m2, root, s),
        paging::byte_of(m1, root, USER_STACK_VA, 4088) is Some,
    ensures
        ({
            let pa = paging::byte_of(m1, root, USER_STACK_VA, 4088)->0;
            m2.u64_at(pa) == m1.u64_at(pa)
        }),
{
    let pa = paging::byte_of(m1, root, USER_STACK_VA, 4088)->0;
    let v = (USER_STACK_VA + 4088) as u64;
    lemma_byte_kept(m1, m2, root, s, USER_STACK_VA, 4088);
    let f = frames::round_down(pa);
    assert(!s.contains(f));
    lemma_word_place(m1, root, v);
    assert(m2.agrees(&m1, pa, pa + 8)) by {
        assert forall|q: int| pa <= q < pa + 8 && m2.has(q, 1) implies #[trigger] m2.byte_at(q)
            == m1.byte_at(q) by {
            assert(frames::round_down(q) == f);
        }
    }
    m2.lemma_agrees_reads(&m1, pa, pa + 8);
}

/// A program's image survives writing to frames its address space does not
/// own.
#[verifier::spinoff_prover]
#[verifier::rlimit(30)]
proof fn lemma_image_kept(m1: Memory, m2: Memory, root: int, text: Seq<u8>, arg: u64, s: Set<int>)
    requires
        user_image(m1, root, text, arg),
        apart(m1, m2, root, s),
    ensures
        user_image(m2, root, text, arg),
{
    reveal(user_image);
    assert forall|k: int| 0 <= k < 4096 implies match #[trigger] paging::byte_of(
        m2,
        root,
        USER_TEXT_VA,
        k,
    ) {
        Some(pa) => m2.byte_at(pa) == if k < text.len() {
            text[k]
        } else {
            0
        },
        None => false,
    } by {
        lemma_byte_kept(m1, m2, root, s, USER_TEXT_VA, k);
        assert(paging::byte_of(m1, root, USER_TEXT_VA, k) is Some);
    }
    assert forall|k: int| 0 <= k < 4088 implies match #[trigger] paging::byte_of(
        m2,
        root,
        USER_STACK_VA,
        k,
    ) {
        Some(pa) => m2.byte_at(pa) == 0,
        None => false,
    } by {
        lemma_byte_kept(m1, m2, root, s, USER_STACK_VA, k);
        assert(paging::byte_of(m1, root, USER_STACK_VA, k) is Some);
    }
    lemma_argument_kept(m1, m2, root, s);
    lemma_byte_kept(m1, m2, root, s, USER_STACK_VA, 4088);
    lemma_stops_kept(m1, m2, root, s);
}

/// The last word of a page is in one frame.
proof fn lemma_word_place(m: Memory, root: int, v: u64)
    requires
        v % 4096 == 4088,
        paging::translation(paging::stop(m, root, v, 0), v) is Some,
    ensures
        paging::translation(paging::stop(m, root, v, 0), v)->0 % 4096 == 4088,
{
    let s = paging::stop(m, root, v, 0);
    paging::lemma_offset_in_page(s, v);
}

/// There is a slot, an address space's worth of frames, and a stack besides,
/// for another user task.
pub open spec fn has_user_room(k: &Kernel) -> bool {
    &&& exists|i: int| 0 <= i < 8 && (#[trigger] k.scheduler.tasks@[i]) is None
    &&& exists|q: int| #[trigger]
        k.frames.fits(q, 4) && frames::free_below(&k.frames, q).len() >= USER_SPACE_FRAMES
}

/// Is there room for another user task? Spawning one asks for it.
pub fn user_room(k: &Kernel) -> (r: bool)
    requires
        k.wf(),
    ensures
        r == has_user_room(k),
{
    if k.scheduler.free_slot().is_none() {
        return false;
    }
    frames::has_run(&k.frames, STACK_FRAMES, USER_SPACE_FRAMES)
}

/// Frames taken lowest first leave a run alone that has enough free frames
/// below it.
proof fn lemma_room_left(one: &Allocator, two: &Allocator, q: int, n: int)
    requires
        one.wf(),
        two.wf(),
        two.packed(one),
        two.free_count() == one.free_count() - n,
        one.fits(q, 4),
        frames::free_below(one, q).len() >= n,
    ensures
        two.fits(q, 4),
{
    one.lemma_facts();
    two.lemma_facts();
    let new = two.taken().difference(one.taken());
    let below = frames::free_below(one, q);
    let ram = frames::run(one.base(), one.count());
    frames::lemma_run(one.base(), one.count());
    vstd::set_lib::lemma_set_subset_finite(ram, below);
    vstd::set_lib::lemma_set_subset_finite(two.taken(), new);
    assert(two.taken() =~= one.taken().union(new));
    vstd::set_lib::lemma_set_disjoint_lens(one.taken(), new);
    assert(new.len() == n);
    assert forall|f: int| frames::run(q, 4).contains(f) implies !two.taken().contains(f) by {
        if two.taken().contains(f) {
            assert(new.contains(f));
            if below.subset_of(new) {
                assert(!below.contains(f));
                assert(below.insert(f).subset_of(new));
                vstd::set_lib::lemma_len_subset(below.insert(f), new);
            } else {
                let g = choose|g: int| below.contains(g) && !new.contains(g);
                assert(ram.contains(g));
                assert(!two.taken().contains(g));
                assert(frames::run(two.base(), two.count()).contains(g));
                assert(two.taken().contains(f));
            }
        }
    }
}

/// Which frames a user task gets: the lowest free ones for its address space,
/// and of what is left the lowest run of four for its stack.
pub open spec fn chosen_lowest(before: &Allocator, space: Set<int>, stack: Frame) -> bool {
    let ram = frames::run(before.base(), before.count());
    let held = before.taken().union(space);
    &&& space.disjoint(before.taken())
    &&& frames::lowest(ram, before.taken(), held)
    &&& frames::run(stack.0 as int, 4).subset_of(ram)
    &&& frames::run(stack.0 as int, 4).disjoint(held)
    &&& forall|q: int|
        (#[trigger] frames::run(q, 4)).subset_of(ram) && frames::run(q, 4).disjoint(held)
            ==> stack.0 <= q
}

/// What spawning a user program does: the lowest empty slot holds a task that
/// has never run, which owns exactly the frames that were taken, and will find
/// its program and its argument where it expects them.
pub open spec fn user_spawned(
    before: &Kernel,
    after: &Kernel,
    id: TaskId,
    name: &'static str,
    image: Image,
    priority: Priority,
) -> bool {
    let slot = id.0 as int;
    let task = after.scheduler.tasks@[slot]->0;
    let taken = after.frames.taken().difference(before.frames.taken());
    &&& after.same_setup(before)
    &&& after.scheduler.same_rest(&before.scheduler)
    &&& slot < 8
    &&& before.scheduler.tasks@[slot] is None
    &&& forall|j: int| 0 <= j < slot ==> before.scheduler.tasks@[j] is Some
    &&& after.scheduler.tasks@ == before.scheduler.tasks@.update(slot, Some(task))
    &&& task.name == name
    &&& task.space is Some
    &&& task.sp == (before.offset + frame_at(task.stack)) as u64
    &&& task.owns_stack
    &&& task.priority == priority
    &&& task.state == State::Runnable
    &&& task.exit_code is None
    &&& task.fault is None
    &&& task.image == Some(image)
    &&& before.frames.taken().subset_of(after.frames.taken())
    &&& after.frames.free_count() == before.frames.free_count() - 11
    &&& claim(after.memory, Some(task)) == taken
    &&& chosen_lowest(&before.frames, space_claim(after.memory, task), task.stack)
    &&& paging::changed_within(before.memory, after.memory, taken)
    &&& user_image(
        after.memory,
        task.space->0.root.0 as int,
        image.text@,
        image.arg,
    )
    &&& planted(after.memory, task.stack, before.user_entry, USER_TEXT_VA, before.trampoline)
    &&& blank(after.memory, task.stack)
}

/// Copy a user program into a fresh address space and spawn it at EL0.
#[verifier::spinoff_prover]
#[verifier::rlimit(40)]
pub fn spawn_user_program(
    k: &mut Kernel,
    name: &'static str,
    text: &'static [u8],
    arg: u64,
    priority: Priority,
) -> (id: TaskId)
    requires
        old(k).wf(),
        has_user_room(old(k)),
        text@.len() <= 4096,
    ensures
        final(k).wf(),
        user_spawned(old(k), final(k), id, name, Image { text, arg }, priority),
{
    let ghost k0 = *k;
    let ghost q = choose|q: int| #[trigger]
        k.frames.fits(q, 4) && frames::free_below(&k.frames, q).len() >= USER_SPACE_FRAMES;
    proof {
        lemma_enough_free(&k.frames, q);
    }
    let space = build_user_space(&mut k.frames, &mut k.memory, text, arg);
    let ghost root = space.root.0 as int;
    let ghost k1 = *k;
    proof {
        let new = k1.frames.taken().difference(k0.frames.taken());
        lemma_room_left(&k0.frames, &k1.frames, q, 7);
        lemma_settled_fresh(
            k0.memory,
            k1.memory,
            k0.frames.taken(),
            k1.frames.taken(),
            k.scheduler.tasks@,
            k.empty_space,
            new,
        );
        assert(k1.wf());
        assert forall|i: int| 0 <= i < 8 implies paging::owned(k1.memory, root).disjoint(
            claim(k1.memory, #[trigger] k1.scheduler.tasks@[i]),
        ) by {
            assert(claim(k0.memory, k0.scheduler.tasks@[i]).subset_of(k0.frames.taken()));
        }
    }
    let ghost given = Some(space);
    assert(may_join(&k1, given));
    let entry: u64 = k.user_entry;
    let id = spawn_task(
        k,
        name,
        entry,
        USER_TEXT_VA,
        Some(space),
        priority,
        Some(Image { text, arg }),
    );
    proof {
        let stack = k.scheduler.tasks@[id.0 as int]->0.stack;
        lemma_stack_written(&k1, k, stack);
        lemma_leaves_present(&k1, root);
        let run4 = frames::run(stack.0 as int, 4);
        assert(run4.disjoint(paging::owned(k1.memory, root)));
        lemma_image_kept(k1.memory, k.memory, root, text@, arg, run4);
        lemma_stops_kept(k1.memory, k.memory, root, run4);
        lemma_user_spawned(&k0, &k1, k, id, name, Image { text, arg }, priority, given->0);
    }
    id
}

/// A run with frames below it means there are that many frames.
proof fn lemma_enough_free(a: &Allocator, q: int)
    requires
        a.wf(),
        frames::free_below(a, q).len() >= USER_SPACE_FRAMES,
    ensures
        a.free_count() >= USER_SPACE_FRAMES,
{
    a.lemma_facts();
    let ram = frames::run(a.base(), a.count());
    let below = frames::free_below(a, q);
    frames::lemma_run(a.base(), a.count());
    vstd::set_lib::lemma_set_subset_finite(ram, below);
    vstd::set_lib::lemma_set_disjoint_lens(a.taken(), below);
    vstd::set_lib::lemma_len_subset(a.taken().union(below), ram);
}

/// Two changes make one.
proof fn lemma_changes_join(m0: Memory, m1: Memory, m2: Memory, s: Set<int>, t: Set<int>)
    requires
        paging::changed_within(m0, m1, s),
        paging::changed_within(m1, m2, t),
    ensures
        paging::changed_within(m0, m2, s.union(t)),
{
    assert forall|q: int|
        m0.has(q, 1) && !s.union(t).contains(frames::round_down(q)) implies #[trigger] m2.byte_at(q)
        == m0.byte_at(q) by {
        assert(m2.byte_at(q) == m1.byte_at(q));
        assert(m1.byte_at(q) == m0.byte_at(q));
    }
}

/// Building an address space and then spawning in it is spawning a user
/// program.
#[verifier::spinoff_prover]
proof fn lemma_user_spawned(
    k0: &Kernel,
    k1: &Kernel,
    k2: &Kernel,
    id: TaskId,
    name: &'static str,
    image: Image,
    priority: Priority,
    space: AddressSpace,
)
    requires
        k1.same_setup(k0),
        k1.scheduler == k0.scheduler,
        k0.scheduler.tasks@.len() == 8,
        k1.frames.free_count() == k0.frames.free_count() - 7,
        k1.frames.packed(&k0.frames),
        paging::owned(k1.memory, space.root.0 as int) == k1.frames.taken().difference(
            k0.frames.taken(),
        ),
        paging::changed_within(
            k0.memory,
            k1.memory,
            k1.frames.taken().difference(k0.frames.taken()),
        ),
        spawned(
            k1,
            k2,
            id,
            name,
            k0.user_entry,
            USER_TEXT_VA,
            Some(space),
            priority,
            Some(image),
        ),
        ({
            let run4 = frames::run(k2.scheduler.tasks@[id.0 as int]->0.stack.0 as int, 4);
            &&& paging::changed_within(k1.memory, k2.memory, run4)
            &&& run4.disjoint(k1.frames.taken())
        }),
        paging::owned(k2.memory, space.root.0 as int) == paging::owned(
            k1.memory,
            space.root.0 as int,
        ),
        user_image(k2.memory, space.root.0 as int, image.text@, image.arg),
    ensures
        user_spawned(k0, k2, id, name, image, priority),
{
    let task = k2.scheduler.tasks@[id.0 as int]->0;
    let run4 = frames::run(task.stack.0 as int, 4);
    let built = k1.frames.taken().difference(k0.frames.taken());
    let new = k2.frames.taken().difference(k0.frames.taken());
    assert(task.space == Some(space));
    lemma_changes_join(k0.memory, k1.memory, k2.memory, built, run4);
    lemma_taken_in_two(k0.frames.taken(), k1.frames.taken(), run4);
    assert(claim(k2.memory, Some(task)) == run4.union(built));
    frames::lemma_lowest(&k1.frames, &k0.frames);
    assert(space_claim(k2.memory, task) == built);
    assert(k0.frames.taken().union(built) =~= k1.frames.taken());
    assert forall|q: int|
        (#[trigger] frames::run(q, 4)).subset_of(
            frames::run(k0.frames.base(), k0.frames.count()),
        ) && frames::run(q, 4).disjoint(k1.frames.taken()) implies task.stack.0 <= q by {
        assert(k1.frames.fits(q, 4));
    }
}

/// What was taken in two steps.
proof fn lemma_taken_in_two(one: Set<int>, two: Set<int>, more: Set<int>)
    requires
        one.subset_of(two),
        more.disjoint(two),
    ensures
        two.union(more).difference(one) == two.difference(one).union(more),
        two.union(more).difference(one) == more.union(two.difference(one)),
        one.subset_of(two.union(more)),
{
    assert(two.union(more).difference(one) =~= two.difference(one).union(more));
    assert(two.union(more).difference(one) =~= more.union(two.difference(one)));
}

/// Writing to a new stack changes its four frames alone.
proof fn lemma_stack_written(k1: &Kernel, k2: &Kernel, stack: Frame)
    requires
        k1.wf(),
        k1.frames.fits(stack.0 as int, 4),
        k2.memory.agrees_outside(&k1.memory, stack.0 as int, stack.0 + 16384),
    ensures
        paging::changed_within(k1.memory, k2.memory, frames::run(stack.0 as int, 4)),
        frames::run(stack.0 as int, 4).disjoint(k1.frames.taken()),
{
    let run4 = frames::run(stack.0 as int, 4);
    lemma_stack_frames(&k1.frames, stack, k1.memory);
    assert forall|q: int|
        k1.memory.has(q, 1) && !run4.contains(
            frames::round_down(q),
        ) implies #[trigger] k2.memory.byte_at(q) == k1.memory.byte_at(q) by {
        lemma_outside_run(stack.0 as int, q);
    }
}

/// What a root maps lies in memory.
proof fn lemma_leaves_present(k: &Kernel, root: int)
    requires
        k.wf(),
        paging::owns(k.memory, root, k.frames.taken()),
    ensures
        forall|q: int| #[trigger]
            paging::leaves(k.memory, root, 0).contains(q) ==> k.memory.has(q, 4096),
{
    k.frames.lemma_facts();
    assert forall|q: int| #[trigger]
        paging::leaves(k.memory, root, 0).contains(q) implies k.memory.has(q, 4096) by {
        assert(paging::owned(k.memory, root).contains(q));
        assert(k.frames.taken().contains(q));
        assert(frames::run(k.frames.base(), k.frames.count()).contains(q));
    }
}

// ---------------------------------------------------------------------------
// Putting a task back together.
// ---------------------------------------------------------------------------

/// Writing to frames that hold no table keeps everything accounted for.
proof fn lemma_settled_written(
    m1: Memory,
    m2: Memory,
    taken: Set<int>,
    tasks: Seq<Option<Task>>,
    empty: Option<AddressSpace>,
    s: Set<int>,
)
    requires
        settled(m1, taken, tasks, empty),
        paging::changed_within(m1, m2, s),
        forall|i: int|
            0 <= i < tasks.len() && (#[trigger] tasks[i]) is Some && tasks[i]->0.space is Some
                ==> s.disjoint(paging::tables(m1, tasks[i]->0.space->0.root.0 as int, 0)),
        match empty {
            Some(space) => !s.contains(space.root.0 as int),
            None => true,
        },
    ensures
        settled(m2, taken, tasks, empty),
        forall|i: int|
            0 <= i < tasks.len() ==> claim(m2, #[trigger] tasks[i]) == claim(m1, tasks[i]),
{
    lemma_isolated_memory(m1, m2, tasks, s);
    assert forall|i: int| 0 <= i < tasks.len() implies claim(m2, #[trigger] tasks[i]).subset_of(
        taken,
    ) by {
        assert(claim(m1, tasks[i]).subset_of(taken));
    }
    match empty {
        Some(space) => {
            paging::lemma_untouched(m1, m2, space.root.0 as int, s);
            assert forall|i: int| 0 <= i < tasks.len() implies !claim(
                m2,
                #[trigger] tasks[i],
            ).contains(space.root.0 as int) by {
                assert(!claim(m1, tasks[i]).contains(space.root.0 as int));
            }
        },
        None => {},
    }
}

/// Writing to the stack of a task without an address space keeps everything
/// accounted for.
proof fn lemma_settled_rewound(
    m1: Memory,
    m2: Memory,
    taken: Set<int>,
    tasks: Seq<Option<Task>>,
    i: int,
    empty: Option<AddressSpace>,
)
    requires
        settled(m1, taken, tasks, empty),
        0 <= i < tasks.len(),
        tasks[i] is Some,
        tasks[i]->0.owns_stack,
        tasks[i]->0.state != State::Dead,
        tasks[i]->0.space is None,
        paging::changed_within(m1, m2, frames::run(tasks[i]->0.stack.0 as int, 4)),
    ensures
        settled(m2, taken, tasks, empty),
        forall|j: int|
            0 <= j < tasks.len() ==> claim(m2, #[trigger] tasks[j]) == claim(m1, tasks[j]),
{
    let run4 = frames::run(tasks[i]->0.stack.0 as int, 4);
    assert(claim(m1, tasks[i]) =~= run4);
    assert forall|j: int|
        0 <= j < tasks.len() && (#[trigger] tasks[j]) is Some && tasks[j]->0.space is Some implies
        run4.disjoint(paging::tables(m1, tasks[j]->0.space->0.root.0 as int, 0)) by {
        let root = tasks[j]->0.space->0.root.0 as int;
        assert(claim(m1, tasks[i]).disjoint(claim(m1, tasks[j])));
        assert forall|q: int| run4.contains(q) implies !paging::tables(m1, root, 0).contains(
            q,
        ) by {
            if paging::tables(m1, root, 0).contains(q) {
                assert(paging::owned(m1, root).contains(q));
                assert(claim(m1, tasks[j]).contains(q));
            }
        }
    }
    match empty {
        Some(space) => {
            assert(!claim(m1, tasks[i]).contains(space.root.0 as int));
        },
        None => {},
    }
    lemma_settled_written(m1, m2, taken, tasks, empty, run4);
}

/// Giving an address space that nobody owns to a task without one keeps
/// everything accounted for.
proof fn lemma_settled_moved_in(
    m: Memory,
    taken: Set<int>,
    one: Seq<Option<Task>>,
    two: Seq<Option<Task>>,
    i: int,
    empty: Option<AddressSpace>,
)
    requires
        settled(m, taken, one, empty),
        0 <= i < one.len() == two.len(),
        two == one.update(i, two[i]),
        one[i] is Some && two[i] is Some,
        one[i]->0.owns_stack && two[i]->0.owns_stack,
        one[i]->0.state != State::Dead && two[i]->0.state != State::Dead,
        one[i]->0.stack == two[i]->0.stack,
        one[i]->0.space is None,
        two[i]->0.space is Some,
        two[i]->0.image is Some ==> two[i]->0.image->0.text@.len() <= 4096,
        ({
            let root = two[i]->0.space->0.root.0 as int;
            &&& paging::owned(m, root).len() == USER_SPACE_FRAMES
            &&& paging::owns(m, root, taken)
            &&& forall|j: int|
                0 <= j < one.len() ==> paging::owned(m, root).disjoint(
                    claim(m, #[trigger] one[j]),
                )
            &&& forall|q: int| #[trigger]
                paging::owned(m, root).contains(q) ==> q % 4096 == 0 && m.has(q, 4096)
            &&& match empty {
                Some(space) => !paging::owned(m, root).contains(space.root.0 as int),
                None => true,
            }
        }),
    ensures
        settled(m, taken, two, empty),
{
    let root = two[i]->0.space->0.root.0 as int;
    let mine = paging::owned(m, root);
    let run4 = frames::run(two[i]->0.stack.0 as int, 4);
    assert(sound_task(m, one[i]));
    assert(claim(m, one[i]) =~= run4);
    assert(claim(m, one[i]).subset_of(taken));
    assert(stack_claim(two[i]->0) == run4);
    assert(space_claim(m, two[i]->0) == mine);
    assert forall|q: int| #[trigger] claim(m, two[i]).contains(q) implies q % 4096 == 0 && m.has(
        q,
        4096,
    ) by {
        if run4.contains(q) {
            assert(claim(m, one[i]).contains(q));
        } else {
            assert(mine.contains(q));
        }
    }
    assert(run4.disjoint(mine)) by {
        assert(mine.disjoint(claim(m, one[i])));
    }
    assert(sound_task(m, two[i]));
    assert forall|j: int| 0 <= j < one.len() && j != i implies claim(m, two[i]).disjoint(
        claim(m, #[trigger] one[j]),
    ) by {
        assert(claim(m, one[i]).disjoint(claim(m, one[j])));
        assert(mine.disjoint(claim(m, one[j])));
    }
    match empty {
        Some(space) => {
            assert(!claim(m, one[i]).contains(space.root.0 as int));
        },
        None => {},
    }
    lemma_settled_join(m, taken, one, two, i, empty);
}

/// Can the task in slot `i` be restarted: has it faulted, and is there a
/// program to build it from?
pub open spec fn restartable(tasks: Seq<Option<Task>>, i: int) -> bool {
    &&& in_state(tasks, i, State::Faulted)
    &&& tasks[i]->0.image is Some
}

/// The restarted task is the same one, in the same slot and on the same stack,
/// at its entry point: its old address space is gone, and the new one holds
/// its program and its argument and nothing else. `tasks` is the table
/// otherwise.
pub open spec fn rebuilt(
    before: &Kernel,
    after: &Kernel,
    tasks: Seq<Option<Task>>,
    id: TaskId,
) -> bool {
    let slot = id.0 as int;
    let gone = before.scheduler.tasks@[slot]->0;
    let task = after.scheduler.tasks@[slot]->0;
    let image = gone.image->0;
    let kept = before.frames.taken().difference(space_claim(before.memory, gone));
    let fresh = after.frames.taken().difference(kept);
    &&& task.space is Some
    &&& after.scheduler.tasks@ == tasks.update(
        slot,
        Some(
            Task {
                space: task.space,
                sp: (before.offset + frame_at(gone.stack)) as u64,
                state: State::Runnable,
                exit_code: None,
                fault: None,
                ..gone
            },
        ),
    )
    &&& kept.subset_of(after.frames.taken())
    &&& frames::lowest(
        frames::run(before.frames.base(), before.frames.count()),
        kept,
        after.frames.taken(),
    )
    &&& after.frames.free_count() == before.frames.free_count() + space_claim(
        before.memory,
        gone,
    ).len() - USER_SPACE_FRAMES
    &&& space_claim(after.memory, task) == fresh
    &&& paging::changed_within(
        before.memory,
        after.memory,
        fresh.union(frames::run(gone.stack.0 as int, 4)),
    )
    &&& user_image(after.memory, task.space->0.root.0 as int, image.text@, image.arg)
    &&& planted(after.memory, gone.stack, before.user_entry, USER_TEXT_VA, before.trampoline)
    &&& forall|q: int|
        gone.stack.0 <= q < gone.stack.0 + 16384 && !wound(gone.stack, q)
            ==> #[trigger] after.memory.byte_at(q) == before.memory.byte_at(q)
}

/// Give back the address space of a task that is not running, and take the
/// program it was built from out of its slot.
fn evict(k: &mut Kernel, id: TaskId)
    requires
        old(k).wf(),
        id.0 < MAX_TASKS,
        in_state(old(k).scheduler.tasks@, id.0 as int, State::Faulted),
    ensures
        final(k).wf(),
        final(k).same_setup(old(k)),
        final(k).memory == old(k).memory,
        final(k).scheduler.same_rest(&old(k).scheduler),
        final(k).scheduler.tasks@ == old(k).scheduler.tasks@.update(
            id.0 as int,
            Some(Task { space: None, image: None, ..old(k).scheduler.tasks@[id.0 as int]->0 }),
        ),
        ({
            let gone = space_claim(old(k).memory, old(k).scheduler.tasks@[id.0 as int]->0);
            &&& final(k).frames.taken() == old(k).frames.taken().difference(gone)
            &&& final(k).frames.free_count() == old(k).frames.free_count() + gone.len()
        }),
{
    let ghost m = k.memory;
    let ghost all = k.scheduler.tasks@;
    let ghost taken0 = k.frames.taken();
    let ghost slot = id.0 as int;
    let ghost gone = all[slot]->0;
    proof {
        assert(sound_task(m, all[slot]));
        assert(claim(m, all[slot]).subset_of(taken0));
    }
    let mut space: Option<AddressSpace> = None;
    match &mut k.scheduler.tasks[id.0] {
        Some(task) => {
            space = task.space.take();
            task.image = None;
        },
        None => {},
    }
    assert(k.scheduler.tasks@ =~= all.update(
        slot,
        Some(Task { space: None, image: None, ..gone }),
    ));
    assert(space == gone.space);
    match space {
        Some(space) => {
            assert(paging::owned(m, space.root.0 as int).subset_of(k.frames.taken())) by {
                assert(space_claim(m, gone).subset_of(claim(m, all[slot])));
            }
            space.destroy(&mut k.frames, &k.memory);
        },
        None => {},
    }
    proof {
        let two = k.scheduler.tasks@;
        assert(k.frames.taken() =~= taken0.difference(space_claim(m, gone)));
        assert(stack_claim(two[slot]->0) == stack_claim(gone));
        assert(claim(m, two[slot]) =~= stack_claim(gone));
        assert(claim(m, all[slot]).difference(claim(m, two[slot])) =~= space_claim(m, gone));
        assert forall|q: int| #[trigger] claim(m, two[slot]).contains(q) implies q % 4096 == 0
            && m.has(q, 4096) by {
            assert(claim(m, all[slot]).contains(q));
        }
        assert(sound_task(m, two[slot]));
        lemma_settled_shed(m, taken0, k.frames.taken(), all, two, slot, k.empty_space);
    }
}

/// The stack of a task that holds one is inside memory.
proof fn lemma_stack_inside(k: &Kernel, i: int)
    requires
        k.wf(),
        0 <= i < 8,
        k.scheduler.tasks@[i] is Some,
        k.scheduler.tasks@[i]->0.owns_stack,
        k.scheduler.tasks@[i]->0.state != State::Dead,
    ensures
        ({
            let stack = k.scheduler.tasks@[i]->0.stack.0 as int;
            &&& stack % 4096 == 0
            &&& k.memory.has(stack, 16384)
            &&& k.offset + stack + 16384 <= u64::MAX
            &&& frames::run(stack, 4).subset_of(k.frames.taken())
        }),
{
    let slot = k.scheduler.tasks@[i];
    let stack = slot->0.stack.0 as int;
    let run4 = frames::run(stack, 4);
    let last = stack + 12288;
    assert(sound_task(k.memory, slot));
    assert(claim(k.memory, slot).subset_of(k.frames.taken()));
    frames::lemma_run(stack, 4);
    k.frames.lemma_facts();
    assert(run4.contains(stack) && run4.contains(last));
    assert(claim(k.memory, slot).contains(stack));
    assert(claim(k.memory, slot).contains(last));
    assert(frames::run(k.frames.base(), k.frames.count()).contains(last));
    assert(last + 4096 <= k.frames.base() + k.frames.length());
}

/// Give a faulted task a fresh address space and wind its stack back.
#[verifier::spinoff_prover]
#[verifier::rlimit(40)]
fn rebuild(k: &mut Kernel, id: TaskId, image: Image)
    requires
        old(k).wf(),
        id.0 < MAX_TASKS,
        in_state(old(k).scheduler.tasks@, id.0 as int, State::Faulted),
        old(k).scheduler.tasks@[id.0 as int]->0.image == Some(image),
    ensures
        final(k).wf(),
        final(k).same_setup(old(k)),
        final(k).scheduler.same_rest(&old(k).scheduler),
        rebuilt(old(k), final(k), old(k).scheduler.tasks@, id),
{
    let ghost k0 = *k;
    let ghost slot = id.0 as int;
    let ghost gone = k0.scheduler.tasks@[slot]->0;
    let ghost run4 = frames::run(gone.stack.0 as int, 4);
    proof {
        assert(sound_task(k0.memory, k0.scheduler.tasks@[slot]));
        assert(replaceable(k0.memory, gone));
        k0.frames.lemma_facts();
    }
    evict(k, id);
    let ghost k1 = *k;
    let ghost kept = k1.frames.taken();
    proof {
        lemma_stack_inside(&k1, slot);
    }
    let space = build_user_space(&mut k.frames, &mut k.memory, image.text, image.arg);
    let ghost k2 = *k;
    let ghost root = space.root.0 as int;
    let ghost fresh = k2.frames.taken().difference(kept);
    proof {
        frames::lemma_lowest(&k2.frames, &k1.frames);
        lemma_settled_fresh(
            k1.memory,
            k2.memory,
            kept,
            k2.frames.taken(),
            k1.scheduler.tasks@,
            k.empty_space,
            fresh,
        );
        assert(k2.wf());
        lemma_leaves_present(&k2, root);
    }
    let stack: Frame = match &k.scheduler.tasks[id.0] {
        Some(task) => task.stack,
        None => Frame(0),
    };
    let entry: u64 = k.user_entry;
    let trampoline: u64 = k.trampoline;
    let offset: u64 = k.offset;
    let sp: u64 = plant_switch_frame(
        &mut k.memory,
        stack,
        offset,
        entry,
        USER_TEXT_VA,
        trampoline,
    );
    let ghost m3 = k.memory;
    proof {
        lemma_rewound_stack(k2.memory, m3, gone.stack);
        lemma_stack_rest(k1.memory, k2.memory, m3, gone.stack, fresh);
        lemma_settled_rewound(
            k2.memory,
            m3,
            k2.frames.taken(),
            k2.scheduler.tasks@,
            slot,
            k.empty_space,
        );
        assert(run4.disjoint(paging::owned(k2.memory, root))) by {
            assert(run4.subset_of(kept));
        }
        lemma_image_kept(k2.memory, m3, root, image.text@, image.arg, run4);
        lemma_stops_kept(k2.memory, m3, root, run4);
        lemma_rebuilt_owner(&k1, &k2, m3, root, run4);
    }
    match &mut k.scheduler.tasks[id.0] {
        Some(task) => {
            task.space = Some(space);
            task.image = Some(image);
            task.sp = sp;
            task.fault = None;
            task.exit_code = None;
            task.state = State::Runnable;
        },
        None => {},
    }
    proof {
        let two = k.scheduler.tasks@;
        assert(two =~= k2.scheduler.tasks@.update(slot, two[slot]));
        lemma_settled_moved_in(
            m3,
            k2.frames.taken(),
            k2.scheduler.tasks@,
            two,
            slot,
            k.empty_space,
        );
        assert(two =~= k0.scheduler.tasks@.update(slot, two[slot]));
        lemma_changes_join(k0.memory, k2.memory, m3, fresh, run4);
    }
}

/// Writing elsewhere and then winding a stack back changes nothing else on the
/// stack.
proof fn lemma_stack_rest(m1: Memory, m2: Memory, m3: Memory, stack: Frame, s: Set<int>)
    requires
        stack.0 % 4096 == 0,
        m1.has(stack.0 as int, 16384),
        paging::changed_within(m1, m2, s),
        s.disjoint(frames::run(stack.0 as int, 4)),
        m3.agrees_outside(&m2, stack.0 as int, stack.0 + 16384),
        forall|q: int|
            #![trigger m3.byte_at(q)]
            m3.has(q, 1) && !wound(stack, q) ==> m3.byte_at(q) == m2.byte_at(q),
    ensures
        forall|q: int|
            stack.0 <= q < stack.0 + 16384 && !wound(stack, q) ==> #[trigger] m3.byte_at(q)
                == m1.byte_at(q),
{
    assert forall|q: int|
        stack.0 <= q < stack.0 + 16384 && !wound(stack, q) implies #[trigger] m3.byte_at(q)
        == m1.byte_at(q) by {
        assert(frames::run(stack.0 as int, 4).contains(frames::round_down(q)));
        assert(m2.byte_at(q) == m1.byte_at(q));
    }
}

/// Writing to a stack changes its four frames alone.
proof fn lemma_rewound_stack(m1: Memory, m2: Memory, stack: Frame)
    requires
        stack.0 % 4096 == 0,
        m2.agrees_outside(&m1, stack.0 as int, stack.0 + 16384),
    ensures
        paging::changed_within(m1, m2, frames::run(stack.0 as int, 4)),
{
    let run4 = frames::run(stack.0 as int, 4);
    assert forall|q: int|
        m1.has(q, 1) && !run4.contains(frames::round_down(q)) implies #[trigger] m2.byte_at(q)
        == m1.byte_at(q) by {
        lemma_outside_run(stack.0 as int, q);
    }
}

/// A fresh address space is still nobody else's once a stack that is apart
/// from it has been written to.
#[verifier::spinoff_prover]
proof fn lemma_rebuilt_owner(k1: &Kernel, k2: &Kernel, m3: Memory, root: int, run4: Set<int>)
    requires
        k1.wf(),
        k2.wf(),
        k2.scheduler == k1.scheduler,
        k2.empty_space == k1.empty_space,
        paging::owns(k2.memory, root, k2.frames.taken()),
        paging::owned(k2.memory, root) == k2.frames.taken().difference(k1.frames.taken()),
        apart(k2.memory, m3, root, run4),
        forall|i: int|
            0 <= i < 8 ==> claim(k2.memory, #[trigger] k1.scheduler.tasks@[i]) == claim(
                k1.memory,
                k1.scheduler.tasks@[i],
            ),
        forall|i: int|
            0 <= i < 8 ==> claim(m3, #[trigger] k1.scheduler.tasks@[i]) == claim(
                k2.memory,
                k1.scheduler.tasks@[i],
            ),
    ensures
        paging::owns(m3, root, k2.frames.taken()),
        forall|i: int|
            0 <= i < 8 ==> paging::owned(m3, root).disjoint(
                claim(m3, #[trigger] k1.scheduler.tasks@[i]),
            ),
        forall|q: int| #[trigger]
            paging::owned(m3, root).contains(q) ==> q % 4096 == 0 && m3.has(q, 4096),
        match k1.empty_space {
            Some(space) => !paging::owned(m3, root).contains(space.root.0 as int),
            None => true,
        },
{
    let mine = paging::owned(k2.memory, root);
    lemma_stops_kept(k2.memory, m3, root, run4);
    assert(run4.disjoint(paging::tables(k2.memory, root, 0))) by {
        assert forall|q: int| run4.contains(q) implies !paging::tables(
            k2.memory,
            root,
            0,
        ).contains(q) by {
            if paging::tables(k2.memory, root, 0).contains(q) {
                assert(mine.contains(q));
            }
        }
    }
    paging::lemma_untouched(k2.memory, m3, root, run4);
    k2.frames.lemma_facts();
    assert forall|i: int| 0 <= i < 8 implies mine.disjoint(
        claim(m3, #[trigger] k1.scheduler.tasks@[i]),
    ) by {
        assert(claim(k1.memory, k1.scheduler.tasks@[i]).subset_of(k1.frames.taken()));
    }
    assert forall|q: int| #[trigger] paging::owned(m3, root).contains(q) implies q % 4096 == 0
        && m3.has(q, 4096) by {
        assert(mine.contains(q));
        assert(k2.frames.taken().contains(q));
        assert(frames::run(k2.frames.base(), k2.frames.count()).contains(q));
    }
}

/// Put a faulted task back at its entry point with clean memory.
///
/// Keeps the slot, and with it the identity: anything holding the task's id
/// still refers to the task. Whoever was waiting on the instance that is
/// going away is told, whether or not there is anything to restart.
pub fn restart(k: &mut Kernel, t: &mut ipc::Table, id: TaskId) -> (r: bool)
    requires
        old(k).wf(),
        old(t).wf(),
        id.0 < MAX_TASKS,
    ensures
        final(k).wf(),
        final(t).wf(),
        final(k).same_setup(old(k)),
        final(k).scheduler.same_rest(&old(k).scheduler),
        ipc::left(old(t), final(t), id.0 as int),
        r == restartable(old(k).scheduler.tasks@, id.0 as int),
        r ==> rebuilt(
            old(k),
            final(k),
            ipc::abandoned_tasks(old(t).pending@, old(k).scheduler.tasks@, id.0 as int, 8),
            id,
        ),
        !r ==> {
            &&& final(k).frames == old(k).frames
            &&& final(k).memory == old(k).memory
            &&& final(k).scheduler.tasks@ == ipc::abandoned_tasks(
                old(t).pending@,
                old(k).scheduler.tasks@,
                id.0 as int,
                8,
            )
        },
{
    let ghost k0 = *k;
    ipc::abandon(t, &mut k.scheduler, id);
    proof {
        lemma_settled_states(
            k.memory,
            k.frames.taken(),
            k0.scheduler.tasks@,
            k.scheduler.tasks@,
            k.empty_space,
        );
    }
    let ghost k1 = *k;
    assert(k1.scheduler.tasks@[id.0 as int] == k0.scheduler.tasks@[id.0 as int]);
    let image: Option<Image> = match &k.scheduler.tasks[id.0] {
        Some(task) => match task.state {
            State::Faulted => task.image,
            _ => None,
        },
        None => None,
    };
    match image {
        Some(image) => {
            rebuild(k, id, image);
            true
        },
        None => false,
    }
}

// ---------------------------------------------------------------------------
// The programs the kernel spawns.
// ---------------------------------------------------------------------------

/// Create a task that runs the well behaved user program at EL0.
pub fn spawn_user(k: &mut Kernel, name: &'static str, text: &'static [u8]) -> (id: TaskId)
    requires
        old(k).wf(),
        has_user_room(old(k)),
        text@.len() <= 4096,
    ensures
        final(k).wf(),
        user_spawned(
            old(k),
            final(k),
            id,
            name,
            Image { text, arg: 0 },
            Priority(Priority::NORMAL),
        ),
{
    spawn_user_program(k, name, text, 0, Priority(Priority::NORMAL))
}

/// Create a task running the program that deliberately faults.
pub fn spawn_faulting_user(k: &mut Kernel, name: &'static str, text: &'static [u8]) -> (id: TaskId)
    requires
        old(k).wf(),
        has_user_room(old(k)),
        text@.len() <= 4096,
    ensures
        final(k).wf(),
        user_spawned(
            old(k),
            final(k),
            id,
            name,
            Image { text, arg: 0 },
            Priority(Priority::NORMAL),
        ),
{
    spawn_user_program(k, name, text, 0, Priority(Priority::NORMAL))
}

/// Spawn the message server at EL0.
pub fn spawn_ipc_server(
    k: &mut Kernel,
    name: &'static str,
    text: &'static [u8],
    priority: Priority,
) -> (id: TaskId)
    requires
        old(k).wf(),
        has_user_room(old(k)),
        text@.len() <= 4096,
    ensures
        final(k).wf(),
        user_spawned(old(k), final(k), id, name, Image { text, arg: 0 }, priority),
{
    spawn_user_program(k, name, text, 0, priority)
}

/// Spawn the message client, told which task to talk to.
pub fn spawn_ipc_client(
    k: &mut Kernel,
    name: &'static str,
    text: &'static [u8],
    server: TaskId,
    priority: Priority,
) -> (id: TaskId)
    requires
        old(k).wf(),
        has_user_room(old(k)),
        text@.len() <= 4096,
    ensures
        final(k).wf(),
        user_spawned(old(k), final(k), id, name, Image { text, arg: server.0 as u64 }, priority),
{
    spawn_user_program(k, name, text, server.0 as u64, priority)
}

/// Start the heartbeat driver and give it the timer interrupt.
pub fn spawn_heartbeat(
    k: &mut Kernel,
    n: &mut notify::Notifications,
    text: &'static [u8],
) -> (id: TaskId)
    requires
        old(k).wf(),
        old(n).wf(),
        has_user_room(old(k)),
        text@.len() <= 4096,
        exists|i: int|
            0 <= i < notify::MAX_ROUTES && (#[trigger] old(n).routes@[i]) is None,
    ensures
        final(k).wf(),
        final(n).wf(),
        user_spawned(
            old(k),
            final(k),
            id,
            "heartbeat",
            Image { text, arg: 0 },
            Priority(Priority::NORMAL),
        ),
        final(n).posted == old(n).posted,
        final(n).wanted == old(n).wanted,
        exists|i: int|
            {
                &&& 0 <= i < notify::MAX_ROUTES
                &&& (#[trigger] old(n).routes@[i]) is None
                &&& forall|j: int| 0 <= j < i ==> old(n).routes@[j] is Some
                &&& final(n).routes@ == old(n).routes@.update(
                    i,
                    Some(notify::Route { intid: timer::TIMER_INTID, task: id, bits: 1 }),
                )
            },
{
    let id = spawn_user_program(k, "heartbeat", text, 0, Priority(Priority::NORMAL));
    notify::route(n, timer::TIMER_INTID, id, 1);
    id
}

// ---------------------------------------------------------------------------
// How a task ends.
// ---------------------------------------------------------------------------

/// The table once the running task has stopped in `state`.
pub open spec fn stopped_table(
    tasks: Seq<Option<Task>>,
    current: int,
    state: State,
    exit_code: Option<u64>,
    fault: Option<Fault>,
) -> Seq<Option<Task>> {
    match tasks[current] {
        Some(task) => tasks.update(
            current,
            Some(
                Task {
                    state,
                    exit_code: match exit_code {
                        Some(code) => Some(code),
                        None => task.exit_code,
                    },
                    fault: match fault {
                        Some(fault) => Some(fault),
                        None => task.fault,
                    },
                    ..task
                },
            ),
        ),
        None => tasks,
    }
}

/// A task stopping gives back nothing yet: whoever switches away from it does
/// that.
proof fn lemma_settled_stopped(
    before: &Kernel,
    after: &Kernel,
    pending: Seq<Option<ipc::Pending>>,
    stopped: Seq<Option<Task>>,
    state: State,
    exit_code: Option<u64>,
    fault: Option<Fault>,
)
    requires
        before.wf(),
        !in_state(before.scheduler.tasks@, before.scheduler.current as int, State::Dead),
        state != State::Dead,
        stopped == stopped_table(
            before.scheduler.tasks@,
            before.scheduler.current as int,
            state,
            exit_code,
            fault,
        ),
        after.scheduler.tasks@ == ipc::abandoned_tasks(
            pending,
            stopped,
            before.scheduler.current as int,
            8,
        ),
        after.memory == before.memory,
        after.frames == before.frames,
        after.empty_space == before.empty_space,
    ensures
        settled(
            after.memory,
            after.frames.taken(),
            after.scheduler.tasks@,
            after.empty_space,
        ),
{
    assert forall|i: int| 0 <= i < 8 implies same_owner(
        before.scheduler.tasks@[i],
        #[trigger] after.scheduler.tasks@[i],
    ) by {
        assert(same_owner(before.scheduler.tasks@[i], stopped[i]));
    }
    lemma_settled_states(
        before.memory,
        before.frames.taken(),
        before.scheduler.tasks@,
        after.scheduler.tasks@,
        before.empty_space,
    );
}

/// End the current task. The caller gives up the CPU and never gets it back.
///
/// Anybody waiting on a message from the task is waiting on something that
/// will never arrive, and is told so.
pub fn exit_current(k: &mut Kernel, t: &mut ipc::Table, code: u64)
    requires
        old(k).wf(),
        old(t).wf(),
        !in_state(
            old(k).scheduler.tasks@,
            old(k).scheduler.current as int,
            State::Dead,
        ),
    ensures
        final(k).wf(),
        final(t).wf(),
        final(k).same_setup(old(k)),
        final(k).frames == old(k).frames,
        final(k).memory == old(k).memory,
        final(k).scheduler.same_rest(&old(k).scheduler),
        ipc::left(old(t), final(t), old(k).scheduler.current as int),
        final(k).scheduler.tasks@ == ipc::abandoned_tasks(
            old(t).pending@,
            stopped_table(
                old(k).scheduler.tasks@,
                old(k).scheduler.current as int,
                State::Zombie,
                Some(code),
                None,
            ),
            old(k).scheduler.current as int,
            8,
        ),
{
    let ghost k0 = *k;
    let current: usize = k.scheduler.current;
    match &mut k.scheduler.tasks[current] {
        Some(task) => {
            task.state = State::Zombie;
            task.exit_code = Some(code);
        },
        None => {},
    }
    let ghost stopped = k.scheduler.tasks@;
    assert(stopped =~= stopped_table(
        k0.scheduler.tasks@,
        current as int,
        State::Zombie,
        Some(code),
        None,
    ));
    ipc::abandon(t, &mut k.scheduler, TaskId(current));
    proof {
        lemma_settled_stopped(
            &k0,
            k,
            old(t).pending@,
            stopped,
            State::Zombie,
            Some(code),
            None,
        );
    }
}

/// Where a task lands when its entry function returns. The caller gives up the
/// CPU and never gets it back.
pub fn task_finished(k: &mut Kernel, t: &mut ipc::Table)
    requires
        old(k).wf(),
        old(t).wf(),
        !in_state(
            old(k).scheduler.tasks@,
            old(k).scheduler.current as int,
            State::Dead,
        ),
    ensures
        final(k).wf(),
        final(t).wf(),
        final(k).same_setup(old(k)),
        final(k).frames == old(k).frames,
        final(k).memory == old(k).memory,
        final(k).scheduler.same_rest(&old(k).scheduler),
        ipc::left(old(t), final(t), old(k).scheduler.current as int),
        final(k).scheduler.tasks@ == ipc::abandoned_tasks(
            old(t).pending@,
            stopped_table(
                old(k).scheduler.tasks@,
                old(k).scheduler.current as int,
                State::Zombie,
                None,
                None,
            ),
            old(k).scheduler.current as int,
            8,
        ),
{
    let ghost k0 = *k;
    let current: usize = k.scheduler.current;
    match &mut k.scheduler.tasks[current] {
        Some(task) => {
            task.state = State::Zombie;
        },
        None => {},
    }
    let ghost stopped = k.scheduler.tasks@;
    assert(stopped =~= stopped_table(
        k0.scheduler.tasks@,
        current as int,
        State::Zombie,
        None,
        None,
    ));
    ipc::abandon(t, &mut k.scheduler, TaskId(current));
    proof {
        lemma_settled_stopped(&k0, k, old(t).pending@, stopped, State::Zombie, None, None);
    }
}

/// Stop the current task because it faulted. The caller gives up the CPU and
/// never gets it back.
///
/// Everybody stuck on the task is released, and everybody waiting to hear of a
/// fault is woken, before anything switches away: the first switch the task
/// makes is its last.
pub fn fault_current(k: &mut Kernel, t: &mut ipc::Table, fault: Fault)
    requires
        old(k).wf(),
        old(t).wf(),
        old(k).scheduler.tasks@[old(k).scheduler.current as int] is Some,
        !in_state(
            old(k).scheduler.tasks@,
            old(k).scheduler.current as int,
            State::Dead,
        ),
        !has_exited(old(k).scheduler.tasks@, old(k).scheduler.current as int),
    ensures
        final(k).wf(),
        final(t).wf(),
        final(k).same_setup(old(k)),
        final(k).frames == old(k).frames,
        final(k).memory == old(k).memory,
        final(k).scheduler.same_rest(&old(k).scheduler),
        ipc::left(old(t), final(t), old(k).scheduler.current as int),
        final(k).scheduler.tasks@ == alerted_table(
            ipc::abandoned_tasks(
                old(t).pending@,
                stopped_table(
                    old(k).scheduler.tasks@,
                    old(k).scheduler.current as int,
                    State::Faulted,
                    None,
                    Some(fault),
                ),
                old(k).scheduler.current as int,
                8,
            ),
            old(k).scheduler.fault_waiters@,
            8,
        ),
{
    let ghost k0 = *k;
    let current: usize = k.scheduler.current;
    match &mut k.scheduler.tasks[current] {
        Some(task) => {
            task.state = State::Faulted;
            task.fault = Some(fault);
        },
        None => {},
    }
    let ghost stopped = k.scheduler.tasks@;
    assert(stopped =~= stopped_table(
        k0.scheduler.tasks@,
        current as int,
        State::Faulted,
        None,
        Some(fault),
    ));
    ipc::abandon(t, &mut k.scheduler, TaskId(current));
    let ghost k1 = *k;
    proof {
        lemma_settled_stopped(&k0, &k1, old(t).pending@, stopped, State::Faulted, None, Some(fault));
    }
    wake_fault_waiters(&mut k.scheduler);
    proof {
        lemma_settled_states(
            k1.memory,
            k1.frames.taken(),
            k1.scheduler.tasks@,
            k.scheduler.tasks@,
            k1.empty_space,
        );
    }
}

// ---------------------------------------------------------------------------
// Starting up, and looking after.
// ---------------------------------------------------------------------------

impl Kernel {
    /// A kernel over memory in which nobody owns anything yet.
    pub fn new(
        frames: Allocator,
        memory: Memory,
        offset: u64,
        trampoline: u64,
        user_entry: u64,
    ) -> (k: Kernel)
        requires
            paging::machine(&frames, &memory),
            offset + frames.base() + frames.length() <= u64::MAX,
        ensures
            k.wf(),
            k.frames == frames,
            k.memory == memory,
            k.offset == offset,
            k.trampoline == trampoline,
            k.user_entry == user_entry,
            k.empty_space is None,
            k.scheduler.tasks@ == Seq::new(8, |i: int| None::<Task>),
            k.scheduler.current == 0,
            k.scheduler.log.entries@ == Seq::<Switch>::empty(),
            k.scheduler.log.overflow == 0,
            k.scheduler.log.preemptions == 0,
            k.scheduler.supervisor is None,
            k.scheduler.fault_waiters@ == Seq::new(8, |i: int| false),
            !k.scheduler.need_resched,
    {
        Kernel {
            frames,
            memory,
            scheduler: Scheduler::new(),
            empty_space: None,
            offset,
            trampoline,
            user_entry,
        }
    }
}

/// Base of the stack the kernel boots on.
pub const BOOT_STACK: u64 = 0x4000_0000;

/// Adopt the currently executing context as task 0.
///
/// The kernel is already running; it does not need to be created, only named.
/// It is the idle task: always runnable, and always the least important thing
/// in the table.
pub fn init(k: &mut Kernel)
    requires
        old(k).wf(),
    ensures
        final(k).wf(),
        final(k).same_setup(old(k)),
        final(k).frames == old(k).frames,
        final(k).memory == old(k).memory,
        final(k).scheduler.log == old(k).scheduler.log,
        final(k).scheduler.supervisor == old(k).scheduler.supervisor,
        final(k).scheduler.fault_waiters == old(k).scheduler.fault_waiters,
        final(k).scheduler.need_resched == old(k).scheduler.need_resched,
        final(k).scheduler.current == 0,
        final(k).scheduler.tasks@ == old(k).scheduler.tasks@.update(
            0,
            Some(
                Task {
                    name: "kernel",
                    space: None,
                    sp: 0,
                    stack: Frame(BOOT_STACK),
                    owns_stack: false,
                    priority: Priority(Priority::IDLE),
                    state: State::Runnable,
                    exit_code: None,
                    fault: None,
                    image: None,
                },
            ),
        ),
{
    let ghost k0 = *k;
    k.scheduler.tasks.set(
        0,
        Some(
            Task {
                name: "kernel",
                space: None,
                sp: 0,
                stack: Frame::from_addr(BOOT_STACK),
                owns_stack: false,
                priority: Priority(Priority::IDLE),
                state: State::Runnable,
                exit_code: None,
                fault: None,
                image: None,
            },
        ),
    );
    k.scheduler.current = 0;
    proof {
        let two = k.scheduler.tasks@;
        assert(claim(k.memory, two[0]) =~= Set::<int>::empty());
        assert(sound_task(k.memory, two[0]));
        assert(two =~= k0.scheduler.tasks@.update(0, two[0]));
        lemma_settled_join(
            k.memory,
            k.frames.taken(),
            k0.scheduler.tasks@,
            two,
            0,
            k.empty_space,
        );
    }
}

/// Give the scheduler an empty low half to fall back on. Returns its root, for
/// the walker to consult.
pub fn init_address_spaces(k: &mut Kernel) -> (root: Frame)
    requires
        old(k).wf(),
        old(k).frames.free_count() > 0,
    ensures
        final(k).wf(),
        final(k).scheduler == old(k).scheduler,
        final(k).offset == old(k).offset,
        final(k).trampoline == old(k).trampoline,
        final(k).user_entry == old(k).user_entry,
        final(k).frames.same_machine(&old(k).frames),
        final(k).empty_space == Some(AddressSpace { root }),
        final(k).frames.packed(&old(k).frames),
        !old(k).frames.taken().contains(root.0 as int),
        final(k).frames.taken() == old(k).frames.taken().insert(root.0 as int),
        paging::changed_within(old(k).memory, final(k).memory, set![root.0 as int]),
        forall|va: u64| #[trigger]
            paging::stop(final(k).memory, root.0 as int, va, 0) == (0int, 0u64),
{
    let ghost k0 = *k;
    let space = AddressSpace::new(&mut k.frames, &mut k.memory);
    let root = space.root();
    let ghost s = set![root.0 as int];
    proof {
        assert(s.disjoint(k0.frames.taken()));
        lemma_settled_fresh(
            k0.memory,
            k.memory,
            k0.frames.taken(),
            k.frames.taken(),
            k0.scheduler.tasks@,
            k0.empty_space,
            s,
        );
        assert forall|i: int| 0 <= i < 8 implies !claim(
            k.memory,
            #[trigger] k.scheduler.tasks@[i],
        ).contains(root.0 as int) by {
            assert(claim(k0.memory, k0.scheduler.tasks@[i]).subset_of(k0.frames.taken()));
        }
    }
    k.empty_space = Some(space);
    root
}

/// Root of the address space used by tasks that have none of their own.
pub fn empty_space_root(k: &Kernel) -> (root: Frame)
    requires
        k.empty_space is Some,
    ensures
        root == k.empty_space->0.root,
{
    match &k.empty_space {
        Some(space) => space.root(),
        None => Frame(0),
    }
}

/// Has the stack in slot `i` been overrun? Only a stack its task still owns
/// counts: a reaped task's stack is somebody else's memory by now.
pub open spec fn overrun(k: &Kernel, i: int) -> bool {
    match k.scheduler.tasks@[i] {
        Some(task) => task.owns_stack && task.state != State::Dead && k.memory.u64_at(
            task.stack.0 as int,
        ) != STACK_CANARY,
        None => false,
    }
}

/// Check every task's stack canary.
pub fn canaries_intact(k: &Kernel) -> (r: bool)
    requires
        k.wf(),
    ensures
        r == (forall|i: int| 0 <= i < MAX_TASKS ==> !#[trigger] overrun(k, i)),
{
    let mut slot: usize = 0;
    while slot < MAX_TASKS
        invariant
            k.wf(),
            slot <= MAX_TASKS,
            forall|i: int| 0 <= i < slot ==> !#[trigger] overrun(k, i),
        decreases MAX_TASKS - slot,
    {
        let mut bad: bool = false;
        match &k.scheduler.tasks[slot] {
            Some(task) => {
                let dead: bool = match task.state {
                    State::Dead => true,
                    _ => false,
                };
                if task.owns_stack && !dead {
                    proof {
                        lemma_stack_inside(k, slot as int);
                    }
                    bad = k.memory.read_u64(task.stack.addr()) != STACK_CANARY;
                }
            },
            None => {},
        }
        assert(bad == overrun(k, slot as int));
        if bad {
            return false;
        }
        slot += 1;
    }
    true
}

// ---------------------------------------------------------------------------
// What programs report.
// ---------------------------------------------------------------------------

/// The check a message client that exited with `code` failed.
pub fn client_failure(code: u64) -> (r: &'static str)
    ensures
        r@ == match code {
            1u64 => "the server reported the message arrived wrong"@,
            2u64 => "the reply was the wrong length"@,
            3u64 => "the reply bytes did not survive the copy"@,
            4u64 => "sending to a dead task did not return EDEAD"@,
            _ => "unknown failure"@,
        },
{
    match code {
        1 => "the server reported the message arrived wrong",
        2 => "the reply was the wrong length",
        3 => "the reply bytes did not survive the copy",
        4 => "sending to a dead task did not return EDEAD",
        _ => "unknown failure",
    }
}

/// The check a borrower that exited with `code` failed: one bit per check that
/// was allowed and should not have been.
pub fn lease_failures(code: u64) -> (r: &'static str)
    ensures
        r@ == match code {
            1u64 => "reading a lease it was given failed"@,
            2u64 => "reading a lease produced the wrong bytes"@,
            4u64 => "writing a lease it was given failed"@,
            8u64 => "a borrow past the end of a lease was allowed"@,
            16u64 => "writing a read only lease was allowed"@,
            32u64 => "a lease index nobody lent it was accepted"@,
            64u64 => "a borrow after the reply still worked"@,
            _ => "several checks failed at once"@,
        },
{
    match code {
        1 => "reading a lease it was given failed",
        2 => "reading a lease produced the wrong bytes",
        4 => "writing a lease it was given failed",
        8 => "a borrow past the end of a lease was allowed",
        16 => "writing a read only lease was allowed",
        32 => "a lease index nobody lent it was accepted",
        64 => "a borrow after the reply still worked",
        _ => "several checks failed at once",
    }
}

/// The check a supervisor that exited with `code` failed.
pub fn supervisor_failures(code: u64) -> (r: &'static str)
    ensures
        r@ == match code {
            1u64 => "the fault reported was not the task being watched"@,
            2u64 => "the first fault was not at the address the victim aimed at"@,
            4u64 => "restart was refused"@,
            8u64 => "the restarted task came back with a different identity"@,
            16u64 => "the restarted task found its old memory still there"@,
            _ => "several checks failed at once"@,
        },
{
    match code {
        1 => "the fault reported was not the task being watched",
        2 => "the first fault was not at the address the victim aimed at",
        4 => "restart was refused",
        8 => "the restarted task came back with a different identity",
        16 => "the restarted task found its old memory still there",
        _ => "several checks failed at once",
    }
}

/// Turns a trace has room for.
pub const TRACE_LEN: usize = 8;

/// Who ran when, and what they counted to.
#[derive(Debug)]
pub struct Trace {
    pub entries: Vec<(u64, u64)>,
}

impl Trace {
    /// Nothing recorded.
    pub fn new() -> (t: Trace)
        ensures
            t.entries@ == Seq::<(u64, u64)>::empty(),
    {
        Trace { entries: Vec::new() }
    }
}

/// Record a turn, if there is room for it.
pub fn record(trace: &mut Trace, tag: u64, value: u64)
    ensures
        final(trace).entries@ == if old(trace).entries@.len() < TRACE_LEN {
            old(trace).entries@.push((tag, value))
        } else {
            old(trace).entries@
        },
{
    if trace.entries.len() < TRACE_LEN {
        trace.entries.push((tag, value));
    }
}

/// Runs an order has room for.
pub const ORDER_LEN: usize = 16;

/// Who ran, in the order they ran.
#[derive(Debug)]
pub struct Order {
    pub tags: Vec<u8>,
}

impl Order {
    /// Nobody has run.
    pub fn new() -> (o: Order)
        ensures
            o.tags@ == Seq::<u8>::empty(),
    {
        Order { tags: Vec::new() }
    }
}

/// Note that somebody ran, if there is room for it.
pub fn note_run(order: &mut Order, tag: u8)
    ensures
        final(order).tags@ == if old(order).tags@.len() < ORDER_LEN {
            old(order).tags@.push(tag)
        } else {
            old(order).tags@
        },
{
    if order.tags.len() < ORDER_LEN {
        order.tags.push(tag);
    }
}

/// Forget who ran.
pub fn reset_order(order: &mut Order)
    ensures
        final(order).tags@ == Seq::<u8>::empty(),
{
    order.tags.clear();
}

// ---------------------------------------------------------------------------
// Laws.
// ---------------------------------------------------------------------------

/// Scheduling is strictly by priority: nobody runnable outranks whoever runs
/// next, however long it has waited.
pub proof fn lemma_strict_priority(tasks: Seq<Option<Task>>, current: int, i: int, j: int)
    requires
        is_next(tasks, current, i),
        in_state(tasks, j, State::Runnable),
    ensures
        !tasks[j]->0.priority.above(tasks[i]->0.priority),
{
}

/// Within a priority it is round robin: whoever comes first after the running
/// task runs next, and the running task only goes on if it is the only one
/// there is at its priority.
pub proof fn lemma_round_robin(tasks: Seq<Option<Task>>, current: int, i: int, j: int)
    requires
        0 <= current < 8,
        tasks.len() == 8,
        is_next(tasks, current, i),
        in_state(tasks, j, State::Runnable),
        j != i,
        tasks[j]->0.priority == tasks[i]->0.priority,
    ensures
        turn(current, i) < turn(current, j),
        i != current,
{
}

/// A blocked task is not a candidate, whatever its priority: anybody runnable
/// goes before it.
pub proof fn lemma_blocked_never_chosen(tasks: Seq<Option<Task>>, current: int, b: int, i: int)
    requires
        in_state(tasks, b, State::Blocked),
        is_next(tasks, current, i),
    ensures
        i != b,
        !is_next(tasks, current, b),
{
}

/// Waking somebody more important costs the waker the CPU at once: whoever runs
/// next is at least as urgent as the task that was woken, and is not the waker.
pub proof fn lemma_woken_runs_now(tasks: Seq<Option<Task>>, current: int, id: int, next: int)
    requires
        tasks.len() == 8,
        0 <= id < 8,
        0 <= current < 8,
        wakes_above(tasks, current, id),
        is_next(woken_table(tasks, id), current, next),
    ensures
        next != current,
        !tasks[id]->0.priority.above(woken_table(tasks, id)[next]->0.priority),
{
    let woken = woken_table(tasks, id);
    assert(in_state(woken, id, State::Runnable));
}

/// The exit code and the fault of a task outlive the reaping of everything
/// else it had.
pub proof fn lemma_exit_code_outlives(tasks: Seq<Option<Task>>, current: int, i: int)
    requires
        0 <= i < tasks.len(),
        tasks[i] is Some,
    ensures
        ({
            let reaped = reaped_table(tasks, current, 8)[i];
            &&& reaped is Some
            &&& reaped->0.exit_code == tasks[i]->0.exit_code
            &&& reaped->0.fault == tasks[i]->0.fault
            &&& reaped->0.name == tasks[i]->0.name
        }),
{
}

/// A task that is alive, or that has faulted, has no exit code.
pub proof fn lemma_no_code_before_exit(k: &Kernel, i: int)
    requires
        k.wf(),
        alive(k.scheduler.tasks@, i) || in_state(k.scheduler.tasks@, i, State::Faulted),
    ensures
        k.scheduler.tasks@[i]->0.exit_code is None,
{
}

/// Nothing but exiting gives a task an exit code, and nothing takes one away
/// from a task that goes on having its slot: it is not changed by anybody
/// blocking, waking, faulting, finishing, being killed or being reaped.
pub proof fn lemma_only_exit_gives_a_code(
    tasks: Seq<Option<Task>>,
    pending: Seq<Option<ipc::Pending>>,
    waiters: Seq<bool>,
    i: int,
    other: int,
    state: State,
    fault: Option<Fault>,
)
    requires
        0 <= i < tasks.len(),
        0 <= other < tasks.len(),
        tasks[i] is Some,
    ensures
        blocked_table(tasks, other)[i]->0.exit_code == tasks[i]->0.exit_code,
        woken_table(tasks, other)[i]->0.exit_code == tasks[i]->0.exit_code,
        with_state(tasks, other, state)[i]->0.exit_code == tasks[i]->0.exit_code,
        stopped_table(tasks, other, state, None, fault)[i]->0.exit_code == tasks[i]->0.exit_code,
        ipc::abandoned_tasks(pending, tasks, other, 8)[i]->0.exit_code
            == tasks[i]->0.exit_code,
        alerted_table(tasks, waiters, 8)[i]->0.exit_code == tasks[i]->0.exit_code,
        reaped_table(tasks, other, 8)[i]->0.exit_code == tasks[i]->0.exit_code,
{
}

/// No fault is missed for not being collected in time: a faulted task stays as
/// it is while other tasks block, wake, stop, fault and are reaped around it.
pub proof fn lemma_fault_is_kept(
    tasks: Seq<Option<Task>>,
    pending: Seq<Option<ipc::Pending>>,
    waiters: Seq<bool>,
    i: int,
    other: int,
    state: State,
    exit_code: Option<u64>,
    fault: Option<Fault>,
)
    requires
        in_state(tasks, i, State::Faulted),
        0 <= other < tasks.len(),
        other != i,
    ensures
        blocked_table(tasks, other)[i] == tasks[i],
        woken_table(tasks, other)[i] == tasks[i],
        woken_table(tasks, i)[i] == tasks[i],
        stopped_table(tasks, other, state, exit_code, fault)[i] == tasks[i],
        ipc::abandoned_tasks(pending, tasks, other, 8)[i] == tasks[i],
        alerted_table(tasks, waiters, 8)[i] == tasks[i],
        reaped_table(tasks, other, 8)[i] == tasks[i],
        released_table(tasks, other, 8)[i] == tasks[i],
{
}

/// However often a user task is restarted, it holds as many frames as when it
/// was spawned, and none are lost.
pub proof fn lemma_restart_loses_nothing(
    before: &Kernel,
    after: &Kernel,
    tasks: Seq<Option<Task>>,
    id: TaskId,
)
    requires
        before.wf(),
        after.wf(),
        after.same_setup(before),
        id.0 < 8,
        restartable(before.scheduler.tasks@, id.0 as int),
        rebuilt(before, after, tasks, id),
    ensures
        ({
            let held = space_claim(before.memory, before.scheduler.tasks@[id.0 as int]->0);
            let holds = space_claim(after.memory, after.scheduler.tasks@[id.0 as int]->0);
            &&& held.len() == holds.len() == USER_SPACE_FRAMES
            &&& after.frames.free_count() == before.frames.free_count()
        }),
{
    let slot = id.0 as int;
    let gone = before.scheduler.tasks@[slot]->0;
    let held = space_claim(before.memory, gone);
    let one = before.frames.taken();
    let two = after.frames.taken();
    let kept = one.difference(held);
    before.frames.lemma_facts();
    after.frames.lemma_facts();
    assert(before.scheduler.tasks@[slot] == Some(gone));
    assert(sound_task(before.memory, before.scheduler.tasks@[slot]));
    assert(replaceable(before.memory, gone));
    assert(claim(before.memory, before.scheduler.tasks@[slot]).subset_of(one));
    vstd::set_lib::lemma_set_subset_finite(one, held);
    vstd::set_lib::lemma_set_disjoint_lens(kept, held);
    assert(kept + held =~= one);
    let fresh = two.difference(kept);
    vstd::set_lib::lemma_set_disjoint_lens(kept, fresh);
    assert(kept + fresh =~= two);
}

/// Restarting brings a task back to life under the id it had, in the name and
/// at the priority it had, with nothing left of how its last life ended.
pub proof fn lemma_restart_revives(
    before: &Kernel,
    after: &Kernel,
    tasks: Seq<Option<Task>>,
    id: TaskId,
)
    requires
        tasks.len() == 8,
        id.0 < 8,
        restartable(before.scheduler.tasks@, id.0 as int),
        rebuilt(before, after, tasks, id),
    ensures
        !alive(before.scheduler.tasks@, id.0 as int),
        alive(after.scheduler.tasks@, id.0 as int),
        ({
            let was = before.scheduler.tasks@[id.0 as int]->0;
            let now = after.scheduler.tasks@[id.0 as int]->0;
            &&& now.name == was.name
            &&& now.priority == was.priority
            &&& now.stack == was.stack
            &&& now.image == was.image
            &&& now.exit_code is None
            &&& now.fault is None
        }),
{
}

/// A user task takes exactly what it gives back: the frames in use once it has
/// been spawned, less what it owns, are the frames in use before.
pub proof fn lemma_life_leaves_no_trace(
    before: &Kernel,
    after: &Kernel,
    id: TaskId,
    name: &'static str,
    image: Image,
    priority: Priority,
)
    requires
        before.wf(),
        user_spawned(before, after, id, name, image, priority),
    ensures
        after.frames.taken().difference(
            claim(after.memory, after.scheduler.tasks@[id.0 as int]),
        ) == before.frames.taken(),
{
    let taken = after.frames.taken().difference(before.frames.taken());
    assert(after.scheduler.tasks@[id.0 as int] == Some(after.scheduler.tasks@[id.0 as int]->0));
    assert(after.frames.taken().difference(taken) =~= before.frames.taken());
}

/// No task can reach another task's memory: a byte that EL0 reaches through one
/// task's tables is in a frame that no other task owns any part of.
pub proof fn lemma_memory_is_private(
    m: Memory,
    tasks: Seq<Option<Task>>,
    i: int,
    j: int,
    va: u64,
    k: int,
)
    requires
        isolated(m, tasks),
        0 <= i < tasks.len(),
        0 <= j < tasks.len(),
        i != j,
        root_of(tasks, i) is Some,
        paging::byte_of(m, ipc::root_at(tasks, i), va, k) is Some,
    ensures
        ({
            let pa = paging::byte_of(m, ipc::root_at(tasks, i), va, k)->0;
            &&& claim(m, tasks[i]).contains(frames::round_down(pa))
            &&& !claim(m, tasks[j]).contains(frames::round_down(pa))
        }),
{
    let root = ipc::root_at(tasks, i);
    let f = frames::round_down(paging::byte_of(m, root, va, k)->0);
    assert(sound_task(m, tasks[i]));
    paging::lemma_leaf_frame(m, root, (va + k) as u64, 0);
    assert(paging::owned(m, root).contains(f));
    assert(claim(m, tasks[i]).contains(f));
    assert(claim(m, tasks[i]).disjoint(claim(m, tasks[j])));
}

/// What a task may touch stays what it may touch while messages and borrowed
/// bytes go back and forth: checking once is enough.
pub proof fn lemma_access_outlasts(
    m1: Memory,
    m2: Memory,
    one: Seq<Option<Task>>,
    two: Seq<Option<Task>>,
    i: int,
    va: u64,
    len: u64,
    write: bool,
)
    requires
        isolated(m1, one),
        touched(m1, one, m2, two),
        0 <= i < one.len(),
        root_of(one, i) is Some,
    ensures
        root_of(two, i) == root_of(one, i),
        paging::user_may(m2, ipc::root_at(one, i), va, len, write) == paging::user_may(
            m1,
            ipc::root_at(one, i),
            va,
            len,
            write,
        ),
{
    let root = ipc::root_at(one, i);
    lemma_reached_apart(m1, one);
    assert(same_owner(one[i], two[i]));
    assert(sound_task(m1, one[i]));
    paging::lemma_untouched(m1, m2, root, reached(m1, one));
    if paging::user_may(m2, root, va, len, write) && len > 0 {
        assert forall|v: u64| va <= v < va + len implies paging::permits(
            #[trigger] paging::stop(m1, root, v, 0),
            write,
        ) by {
            assert(paging::permits(paging::stop(m2, root, v, 0), write));
        }
    }
}

/// How far round the table slot `i` is from the slot that is running, which is
/// itself furthest.
pub open spec fn steps(current: int, i: int) -> int {
    if i > current {
        i - current
    } else {
        i - current + 8
    }
}

/// Of everybody that can run, slot `c` is the most urgent, and of those that
/// are as urgent the first after the one that is running.
pub open spec fn goes_next(tasks: Seq<Option<Task>>, current: int, c: int) -> bool {
    &&& in_state(tasks, c, State::Runnable)
    &&& forall|j: int|
        #![trigger in_state(tasks, j, State::Runnable)]
        in_state(tasks, j, State::Runnable) && j != c ==> {
            let (p, q) = (tasks[c]->0.priority.0, tasks[j]->0.priority.0);
            p < q || p == q && steps(current, c) < steps(current, j)
        }
}

/// What is left of a task that the CPU has been switched away from: whoever had
/// finished, and was not the one running, has been reaped, keeps its name, its
/// exit code and its fault, and has no address space any more; and everybody
/// else is as they were.
pub open spec fn reaped_from(
    tasks: Seq<Option<Task>>,
    current: int,
    after: Seq<Option<Task>>,
    i: int,
) -> bool {
    if i != current && in_state(tasks, i, State::Zombie) {
        &&& in_state(after, i, State::Dead)
        &&& after[i]->0.space is None
        &&& after[i]->0.exit_code == tasks[i]->0.exit_code
        &&& after[i]->0.fault == tasks[i]->0.fault
        &&& after[i]->0.name == tasks[i]->0.name
    } else {
        after[i] == tasks[i]
    }
}

/// Nothing of the scheduler has changed but its tasks.
pub open spec fn rest_kept(one: Scheduler, two: Scheduler) -> bool {
    &&& two.current == one.current
    &&& two.log.entries@ == one.log.entries@
    &&& two.log.overflow == one.log.overflow && two.log.preemptions == one.log.preemptions
    &&& two.supervisor == one.supervisor
    &&& two.fault_waiters@ == one.fault_waiters@
    &&& two.need_resched == one.need_resched
}

/// The CPU has gone to whoever goes next, of the tasks in `tasks`: if that is
/// somebody else, the way there is handed out, to the stack it left and into
/// its own address space, and is logged.
pub open spec fn cpu_given(
    before: &Kernel,
    tasks: Seq<Option<Task>>,
    after: &Kernel,
    preemptive: bool,
    r: Option<Handoff>,
) -> bool {
    let (from, to) = (before.scheduler.current as int, after.scheduler.current as int);
    let (log, logged) = (before.scheduler.log, after.scheduler.log);
    &&& goes_next(tasks, from, to)
    &&& r is Some <==> to != from
    &&& r is Some ==> {
        &&& r->0.from == from && r->0.to == to
        &&& r->0.resume_sp == tasks[to]->0.sp
        &&& tasks[to]->0.space is Some ==> r->0.root == tasks[to]->0.space->0.root
        &&& tasks[to]->0.space is None && before.empty_space is Some ==> r->0.root
            == before.empty_space->0.root
        &&& log.entries@.len() < 32 ==> logged.entries@ == log.entries@.push(
            Switch { from: from as usize, to: to as usize, preemptive },
        )
        &&& log.entries@.len() >= 32 ==> logged.entries@ == log.entries@ && (log.overflow
            < usize::MAX ==> logged.overflow == log.overflow + 1)
    }
    &&& r is None ==> logged == log
    &&& !preemptive ==> logged.preemptions == log.preemptions
    &&& r is Some && preemptive && log.preemptions < usize::MAX ==> logged.preemptions
        == log.preemptions + 1
    &&& after.scheduler.supervisor == before.scheduler.supervisor
    &&& after.scheduler.fault_waiters@ == before.scheduler.fault_waiters@
    &&& after.memory == before.memory
    &&& forall|i: int|
        #![trigger after.scheduler.tasks@[i]]
        0 <= i < 8 ==> reaped_from(tasks, from, after.scheduler.tasks@, i)
    &&& forall|i: int, q: int|
        #![trigger claim(before.memory, tasks[i]).contains(q)]
        0 <= i < 8 && i != from && in_state(tasks, i, State::Zombie) && claim(
            before.memory,
            tasks[i],
        ).contains(q) ==> !after.frames.taken().contains(q)
    &&& forall|q: int| #[trigger]
        after.frames.taken().contains(q) ==> before.frames.taken().contains(q)
}

proof fn lemma_cpu_given(
    before: &Kernel,
    tasks: Seq<Option<Task>>,
    after: &Kernel,
    reason: Reason,
    r: Option<Handoff>,
)
    requires
        switched(before, tasks, after, reason, r),
        tasks.len() == 8,
        before.scheduler.current < 8,
        tasks[before.scheduler.current as int] is Some,
        any_runnable(tasks),
    ensures
        cpu_given(before, tasks, after, reason == Reason::Preemptive, r),
{
    let current = before.scheduler.current as int;
    let next = choose|i: int| #[trigger] is_next(tasks, current, i);
    lemma_next_exists(tasks, current);
    assert(is_next(tasks, current, next));
    assert forall|j: int|
        #![trigger in_state(tasks, j, State::Runnable)]
        in_state(tasks, j, State::Runnable) && j != next implies {
        let (p, q) = (tasks[next]->0.priority.0, tasks[j]->0.priority.0);
        p < q || p == q && steps(current, next) < steps(current, j)
    } by {
        assert(before_both(current, next, j));
    }
    assert forall|i: int, q: int|
        #![trigger claim(before.memory, tasks[i]).contains(q)]
        0 <= i < 8 && i != current && in_state(tasks, i, State::Zombie) && claim(
            before.memory,
            tasks[i],
        ).contains(q) implies !after.frames.taken().contains(q) by {
        assert(reapable(tasks, current, i));
        assert(salvage(before.memory, tasks, current, 8).contains(q));
    }
}

/// The two ways to count round the table agree.
spec fn before_both(current: int, i: int, j: int) -> bool {
    (turn(current, i) < turn(current, j)) == (steps(current, i) < steps(current, j))
}

/// Yielding gives the CPU to whoever goes next.
pub proof fn lemma_yield_gives_the_cpu(k: &mut Kernel, r: Option<Handoff>)
    requires
        old(k).wf(),
        old(k).scheduler.tasks@[old(k).scheduler.current as int] is Some,
        any_runnable(old(k).scheduler.tasks@),
        call_ensures(yield_now, (k,), r),
    ensures
        cpu_given(old(k), old(k).scheduler.tasks@, final(k), false, r),
        final(k).scheduler.need_resched == old(k).scheduler.need_resched,
{
    lemma_cpu_given(old(k), old(k).scheduler.tasks@, final(k), Reason::Voluntary, r);
}

/// Preemption takes the CPU from a task only when it was asked for, once, and
/// gives it to whoever goes next.
pub proof fn lemma_preemption_is_asked_for(k: &mut Kernel, r: Option<Handoff>)
    requires
        old(k).wf(),
        old(k).scheduler.tasks@[old(k).scheduler.current as int] is Some,
        any_runnable(old(k).scheduler.tasks@),
        call_ensures(preempt_if_needed, (k,), r),
    ensures
        !final(k).scheduler.need_resched,
        old(k).scheduler.need_resched ==> cpu_given(
            old(k),
            old(k).scheduler.tasks@,
            final(k),
            true,
            r,
        ),
        !old(k).scheduler.need_resched ==> r is None && *final(k) == *old(k),
{
    if old(k).scheduler.need_resched {
        lemma_cpu_given(old(k), old(k).scheduler.tasks@, final(k), Reason::Preemptive, r);
    }
}

/// Asking for a reschedule is what preemption waits for, and is all it does.
pub proof fn lemma_request_asks_for_preemption(s: &mut Scheduler)
    requires
        call_ensures(request_reschedule, (s,), ()),
    ensures
        final(s).need_resched,
        final(s).tasks@ == old(s).tasks@,
        final(s).current == old(s).current,
        final(s).log == old(s).log,
        final(s).supervisor == old(s).supervisor,
        final(s).fault_waiters == old(s).fault_waiters,
{
}

/// A task that blocks is out of the running, whatever its priority: somebody
/// else has the CPU, and that is whoever goes next without it.
pub proof fn lemma_blocked_task_is_out(k: &mut Kernel, r: Option<Handoff>, out: Seq<Option<Task>>)
    requires
        old(k).wf(),
        old(k).scheduler.tasks@[old(k).scheduler.current as int] is Some,
        call_ensures(block_current, (k,), r),
        out.len() == 8,
        forall|i: int|
            0 <= i < 8 && i != old(k).scheduler.current ==> #[trigger] out[i]
                == old(k).scheduler.tasks@[i],
        out[old(k).scheduler.current as int] == Some(
            Task {
                state: State::Blocked,
                ..old(k).scheduler.tasks@[old(k).scheduler.current as int]->0
            },
        ),
        any_runnable(out),
    ensures
        cpu_given(old(k), out, final(k), false, r),
        r is Some,
        in_state(final(k).scheduler.tasks@, old(k).scheduler.current as int, State::Blocked),
{
    let all = old(k).scheduler.tasks@;
    let me = old(k).scheduler.current as int;
    assert(out =~= blocked_table(all, me));
    lemma_cpu_given(old(k), out, final(k), Reason::Voluntary, r);
    assert(reaped_from(out, me, final(k).scheduler.tasks@, me));
}

/// Parking stops a task that is still waiting, and only one that is: a wakeup
/// that has already come is not lost.
pub proof fn lemma_park_stops_only_the_waiting(k: &mut Kernel, r: Option<Handoff>)
    requires
        old(k).wf(),
        any_runnable(old(k).scheduler.tasks@),
        call_ensures(park, (k,), r),
    ensures
        ({
            let waiting = in_state(
                old(k).scheduler.tasks@,
                old(k).scheduler.current as int,
                State::Blocked,
            );
            &&& waiting ==> r is Some && cpu_given(
                old(k),
                old(k).scheduler.tasks@,
                final(k),
                false,
                r,
            )
            &&& !waiting ==> r is None && *final(k) == *old(k)
        }),
{
    let all = old(k).scheduler.tasks@;
    if in_state(all, old(k).scheduler.current as int, State::Blocked) {
        lemma_cpu_given(old(k), all, final(k), Reason::Voluntary, r);
    }
}

/// Waking a blocked task puts it back in the running, and hands it the CPU at
/// once if it is more urgent than whoever woke it, or somebody more urgent
/// still. Waking anything else does nothing.
pub proof fn lemma_woken_task_is_back(k: &mut Kernel, id: TaskId, r: Option<Handoff>)
    requires
        old(k).wf(),
        old(k).scheduler.tasks@[old(k).scheduler.current as int] is Some,
        call_ensures(unblock, (k, id), r),
    ensures
        ({
            let (one, two) = (old(k).scheduler.tasks@, final(k).scheduler.tasks@);
            let (me, t) = (old(k).scheduler.current as int, id.0 as int);
            let asleep = in_state(one, t, State::Blocked);
            let above = asleep && one[t]->0.priority.0 < one[me]->0.priority.0;
            &&& asleep ==> in_state(two, t, State::Runnable)
            &&& above ==> {
                &&& r is Some
                &&& final(k).scheduler.current != me
                &&& two[final(k).scheduler.current as int]->0.priority.0 <= one[t]->0.priority.0
            }
            &&& !above ==> r is None && final(k).scheduler.current == me
            &&& !asleep ==> two == one
            &&& asleep && !above ==> forall|i: int|
                0 <= i < 8 && i != t ==> #[trigger] two[i] == one[i]
        }),
        final(k).scheduler.need_resched == old(k).scheduler.need_resched,
        final(k).memory == old(k).memory,
{
    let (me, t) = (old(k).scheduler.current as int, id.0 as int);
    let all = old(k).scheduler.tasks@;
    let woken = woken_table(all, t);
    if wakes_above(all, me, t) {
        assert(in_state(woken, t, State::Runnable));
        lemma_cpu_given(old(k), woken, final(k), Reason::Voluntary, r);
        assert(reaped_from(woken, me, final(k).scheduler.tasks@, t));
        let c = final(k).scheduler.current as int;
        assert(in_state(woken, c, State::Runnable));
        assert(reaped_from(woken, me, final(k).scheduler.tasks@, c));
        if c == me {
            assert(woken[me] == all[me]);
        }
    }
}

/// Waking without giving up the CPU does the same to the task, and says whether
/// it is more urgent than whoever is running.
pub proof fn lemma_deferred_wakeup(s: &mut Scheduler, id: TaskId, above: bool)
    requires
        old(s).wf(),
        call_ensures(unblock_deferred, (s, id), above),
    ensures
        ({
            let (me, t) = (old(s).current as int, id.0 as int);
            let asleep = in_state(old(s).tasks@, t, State::Blocked);
            &&& asleep ==> in_state(final(s).tasks@, t, State::Runnable)
            &&& !asleep ==> final(s).tasks@ == old(s).tasks@
            &&& forall|i: int|
                0 <= i < 8 && i != t ==> #[trigger] final(s).tasks@[i] == old(s).tasks@[i]
            &&& above <==> asleep && old(s).tasks@[me] is Some && old(s).tasks@[t]->0.priority.0
                < old(s).tasks@[me]->0.priority.0
        }),
        final(s).current == old(s).current,
        final(s).need_resched == old(s).need_resched,
{
}

/// Marking the running task blocked takes it out of the running and leaves it
/// the CPU.
pub proof fn lemma_marked_is_still_running(s: &mut Scheduler, i: int)
    requires
        old(s).wf(),
        0 <= i < 8,
        call_ensures(mark_current_blocked, (s,), ()),
    ensures
        final(s).current == old(s).current,
        old(s).tasks@[old(s).current as int] is Some ==> in_state(
            final(s).tasks@,
            old(s).current as int,
            State::Blocked,
        ),
        i != old(s).current ==> final(s).tasks@[i] == old(s).tasks@[i],
{
}

/// The task that is found to run next is the one that goes next, and none is
/// found only if nobody can run.
pub proof fn lemma_next_runnable_goes_next(s: Scheduler, r: Option<usize>, j: int)
    requires
        s.wf(),
        call_ensures(Scheduler::next_runnable, (&s,), r),
    ensures
        r is Some ==> goes_next(s.tasks@, s.current as int, r->0 as int),
        r is None ==> !in_state(s.tasks@, j, State::Runnable),
{
    if r is Some {
        let c = r->0 as int;
        let current = s.current as int;
        assert forall|i: int|
            #![trigger in_state(s.tasks@, i, State::Runnable)]
            in_state(s.tasks@, i, State::Runnable) && i != c implies {
            let (p, q) = (s.tasks@[c]->0.priority.0, s.tasks@[i]->0.priority.0);
            p < q || p == q && steps(current, c) < steps(current, i)
        } by {
            assert(before_both(current, c, i));
        }
    }
}

/// Has slot `i` sent to `gone`, and is it waiting for that?
pub open spec fn stuck_on(pending: Seq<Option<ipc::Pending>>, i: int, gone: int) -> bool {
    match pending[i] {
        Some(ipc::Pending::SendWait(message)) => message.target == gone,
        Some(ipc::Pending::ReplyWait(message)) => message.target == gone,
        _ => false,
    }
}

/// A task that exits is finished, with the code it gave, and keeps everything
/// else until it is reaped. Whoever was stuck on it is told that it is dead and
/// put back in the running; nobody else changes.
pub proof fn lemma_exit_finishes_the_task(k: &mut Kernel, t: &mut ipc::Table, code: u64, i: int)
    requires
        old(k).wf(),
        old(t).wf(),
        old(k).scheduler.tasks@[old(k).scheduler.current as int] is Some,
        0 <= i < 8,
        call_ensures(exit_current, (k, t, code), ()),
    ensures
        ({
            let me = old(k).scheduler.current as int;
            let (one, two) = (old(k).scheduler.tasks@, final(k).scheduler.tasks@);
            &&& in_state(two, me, State::Zombie)
            &&& two[me]->0.exit_code == Some(code)
            &&& two[me]->0.space == one[me]->0.space && two[me]->0.stack == one[me]->0.stack
            &&& two[me]->0.fault == one[me]->0.fault
            &&& final(t).pending@[me] is None
            &&& i != me && stuck_on(old(t).pending@, i, me) ==> {
                &&& final(t).pending@[i] is None
                &&& final(t).outcome@[i] == (ipc::Outcome {
                    a: 0xffff_ffff_ffff_fffd,
                    b: 0,
                    c: 0,
                })
                &&& in_state(one, i, State::Blocked) ==> in_state(two, i, State::Runnable)
            }
            &&& i != me && !stuck_on(old(t).pending@, i, me) ==> two[i] == one[i]
                && final(t).pending@[i] == old(t).pending@[i] && final(t).outcome@[i] == old(
                t,
            ).outcome@[i]
        }),
        final(k).frames == old(k).frames,
        final(k).memory == old(k).memory,
        rest_kept(old(k).scheduler, final(k).scheduler),
{
}

/// A task that returns from its entry is finished, with no code of its own.
pub proof fn lemma_returning_finishes_the_task(k: &mut Kernel, t: &mut ipc::Table, i: int)
    requires
        old(k).wf(),
        old(t).wf(),
        old(k).scheduler.tasks@[old(k).scheduler.current as int] is Some,
        0 <= i < 8,
        call_ensures(task_finished, (k, t), ()),
    ensures
        ({
            let me = old(k).scheduler.current as int;
            let (one, two) = (old(k).scheduler.tasks@, final(k).scheduler.tasks@);
            &&& in_state(two, me, State::Zombie)
            &&& two[me]->0.exit_code == one[me]->0.exit_code
            &&& i != me && stuck_on(old(t).pending@, i, me) ==> {
                &&& final(t).pending@[i] is None
                &&& final(t).outcome@[i].a == 0xffff_ffff_ffff_fffd
                &&& in_state(one, i, State::Blocked) ==> in_state(two, i, State::Runnable)
            }
            &&& i != me && !stuck_on(old(t).pending@, i, me) ==> two[i] == one[i]
        }),
        final(k).frames == old(k).frames,
        final(k).memory == old(k).memory,
        rest_kept(old(k).scheduler, final(k).scheduler),
{
}

/// A task that faults is stopped, with what it did, and keeps its memory for
/// whoever wants to look. Whoever was stuck on it is released, and whoever
/// waits to hear of a fault is put back in the running.
pub proof fn lemma_fault_stops_the_task(k: &mut Kernel, t: &mut ipc::Table, fault: Fault, i: int)
    requires
        old(k).wf(),
        old(t).wf(),
        old(k).scheduler.tasks@[old(k).scheduler.current as int] is Some,
        0 <= i < 8,
        call_ensures(fault_current, (k, t, fault), ()),
    ensures
        ({
            let me = old(k).scheduler.current as int;
            let (one, two) = (old(k).scheduler.tasks@, final(k).scheduler.tasks@);
            let told = stuck_on(old(t).pending@, i, me);
            let waits = old(k).scheduler.fault_waiters@[i];
            &&& in_state(two, me, State::Faulted)
            &&& two[me]->0.fault == Some(fault)
            &&& two[me]->0.space == one[me]->0.space && two[me]->0.stack == one[me]->0.stack
            &&& two[me]->0.image == one[me]->0.image
            &&& i != me && told ==> final(t).pending@[i] is None && final(t).outcome@[i].a
                == 0xffff_ffff_ffff_fffd
            &&& i != me && (told || waits) && in_state(one, i, State::Blocked) ==> in_state(
                two,
                i,
                State::Runnable,
            )
            &&& i != me && !told && !waits ==> two[i] == one[i]
            &&& i != me && !told ==> final(t).pending@[i] == old(t).pending@[i]
                && final(t).outcome@[i] == old(t).outcome@[i]
        }),
        final(k).frames == old(k).frames,
        final(k).memory == old(k).memory,
        rest_kept(old(k).scheduler, final(k).scheduler),
{
}

/// Killing lets a faulted task go, to be reaped, and touches nobody else and no
/// task that has not faulted.
pub proof fn lemma_only_the_faulted_are_killed(s: &mut Scheduler, id: TaskId, i: int)
    requires
        old(s).wf(),
        id.0 < 8,
        0 <= i < 8,
        call_ensures(kill, (s, id), ()),
    ensures
        in_state(old(s).tasks@, id.0 as int, State::Faulted) ==> in_state(
            final(s).tasks@,
            id.0 as int,
            State::Zombie,
        ) && final(s).tasks@[id.0 as int]->0.fault == old(s).tasks@[id.0 as int]->0.fault,
        i != id.0 || !in_state(old(s).tasks@, id.0 as int, State::Faulted) ==> final(s).tasks@[i]
            == old(s).tasks@[i],
        rest_kept(*old(s), *final(s)),
{
}

/// Reaping gives back everything that finished tasks held, and nothing that
/// anybody else holds.
pub proof fn lemma_reaping_gives_all_back(k: &mut Kernel, i: int, q: int)
    requires
        old(k).wf(),
        0 <= i < 8,
        call_ensures(reap_zombies, (k,), ()),
    ensures
        ({
            let me = old(k).scheduler.current as int;
            let (one, two) = (old(k).scheduler.tasks@, final(k).scheduler.tasks@);
            let reaped = i != me && in_state(one, i, State::Zombie);
            &&& reaped_from(one, me, two, i)
            &&& reaped && claim(old(k).memory, one[i]).contains(q)
                ==> !final(k).frames.taken().contains(q)
            &&& !reaped && claim(old(k).memory, one[i]).contains(q)
                ==> final(k).frames.taken().contains(q)
            &&& final(k).frames.taken().contains(q) ==> old(k).frames.taken().contains(q)
        }),
        final(k).memory == old(k).memory,
        rest_kept(old(k).scheduler, final(k).scheduler),
{
    let me = old(k).scheduler.current as int;
    let one = old(k).scheduler.tasks@;
    let m = old(k).memory;
    let gone = salvage(m, one, me, 8);
    if claim(m, one[i]).contains(q) {
        assert(claim(m, one[i]).subset_of(old(k).frames.taken()));
        if i != me && in_state(one, i, State::Zombie) {
            assert(reapable(one, me, i));
            assert(gone.contains(q));
        } else if gone.contains(q) {
            let j = choose|j: int|
                0 <= j < 8 && #[trigger] reapable(one, me, j) && claim(m, one[j]).contains(q);
            assert(claim(m, one[i]).disjoint(claim(m, one[j])));
        }
    }
}

/// Releasing empties the slots of the reaped, but for the one that is running,
/// and says how many there were; every other slot keeps its task.
pub proof fn lemma_released_slots_are_empty(
    s: &mut Scheduler,
    r: usize,
    before: usize,
    after: usize,
    i: int,
)
    requires
        old(s).wf(),
        0 <= i < 8,
        call_ensures(release_dead, (s,), r),
        call_ensures(free_slots, (&*old(s),), before),
        call_ensures(free_slots, (&*final(s),), after),
    ensures
        r == after - before,
        i != old(s).current && in_state(old(s).tasks@, i, State::Dead) ==> final(s).tasks@[i]
            is None,
        i == old(s).current || !in_state(old(s).tasks@, i, State::Dead) ==> final(s).tasks@[i]
            == old(s).tasks@[i],
        rest_kept(*old(s), *final(s)),
{
}

proof fn lemma_empty_set(tasks: Seq<Option<Task>>, n: int)
    requires
        0 <= n <= tasks.len(),
    ensures
        Set::new(|i: int| 0 <= i < n && tasks[i] is None).finite(),
        Set::new(|i: int| 0 <= i < n && tasks[i] is None).len() == empty_below(tasks, n),
    decreases n,
{
    let all = Set::new(|i: int| 0 <= i < n && tasks[i] is None);
    if n == 0 {
        assert(all =~= Set::empty());
    } else {
        lemma_empty_set(tasks, n - 1);
        let rest = Set::new(|i: int| 0 <= i < n - 1 && tasks[i] is None);
        if tasks[n - 1] is None {
            assert(all =~= rest.insert(n - 1));
        } else {
            assert(all =~= rest);
        }
    }
}

proof fn lemma_others_set(tasks: Seq<Option<Task>>, current: int, n: int)
    requires
        0 <= n <= tasks.len(),
    ensures
        Set::new(
            |i: int| 0 <= i < n && i != current && in_state(tasks, i, State::Runnable),
        ).finite(),
        Set::new(
            |i: int| 0 <= i < n && i != current && in_state(tasks, i, State::Runnable),
        ).len() == others_below(tasks, current, n),
    decreases n,
{
    let all = Set::new(
        |i: int| 0 <= i < n && i != current && in_state(tasks, i, State::Runnable),
    );
    if n == 0 {
        assert(all =~= Set::empty());
    } else {
        lemma_others_set(tasks, current, n - 1);
        let rest = Set::new(
            |i: int| 0 <= i < n - 1 && i != current && in_state(tasks, i, State::Runnable),
        );
        if n - 1 != current && in_state(tasks, n - 1, State::Runnable) {
            assert(all =~= rest.insert(n - 1));
        } else {
            assert(all =~= rest);
        }
    }
}

/// The counts count: the slots that are empty, and the tasks that could run if
/// the one that is running did not.
pub proof fn lemma_counts_count(s: Scheduler, empty: usize, others: usize)
    requires
        s.wf(),
        call_ensures(free_slots, (&s,), empty),
        call_ensures(runnable_others, (&s,), others),
    ensures
        empty == Set::new(|i: int| 0 <= i < 8 && s.tasks@[i] is None).len(),
        others == Set::new(
            |i: int| 0 <= i < 8 && i != s.current && in_state(s.tasks@, i, State::Runnable),
        ).len(),
{
    lemma_empty_set(s.tasks@, 8);
    lemma_others_set(s.tasks@, s.current as int, 8);
}

/// What is asked of a task is answered by what it is doing: it is alive, or has
/// finished, and never both; and of the finished, one that faulted has not been
/// reaped.
pub proof fn lemma_states_are_told_apart(
    s: Scheduler,
    id: TaskId,
    lives: bool,
    done: bool,
    blocked: bool,
    dead: bool,
    faulted: bool,
)
    requires
        s.wf(),
        id.0 < 8,
        call_ensures(is_alive, (&s, id), lives),
        call_ensures(finished, (&s, id), done),
        call_ensures(is_blocked, (&s, id), blocked),
        call_ensures(is_dead, (&s, id), dead),
        call_ensures(is_faulted, (&s, id), faulted),
    ensures
        s.tasks@[id.0 as int] is Some <==> lives || done,
        !(lives && done),
        blocked ==> lives,
        dead ==> done && !faulted,
        faulted ==> done,
        s.tasks@[id.0 as int] is Some ==> {
            let state = s.tasks@[id.0 as int]->0.state;
            &&& lives <==> state == State::Runnable || state == State::Blocked
            &&& blocked <==> state == State::Blocked
            &&& dead <==> state == State::Dead
            &&& faulted <==> state == State::Faulted
        },
{
}

/// Waiting for a fault names one that there is, the lowest; and with none the
/// task is blocked and registered, so that the next fault wakes it.
pub proof fn lemma_fault_wakes_whoever_waits(
    s: &mut Scheduler,
    r: Option<TaskId>,
    s2: &mut Scheduler,
    j: int,
)
    requires
        old(s).wf(),
        old(s).tasks@[old(s).current as int] is Some,
        0 <= j < 8,
        call_ensures(wait_for_fault, (s,), r),
        *old(s2) == *final(s),
        call_ensures(wake_fault_waiters, (s2,), ()),
    ensures
        in_state(old(s).tasks@, j, State::Faulted) ==> r is Some && (r->0).0 <= j,
        r is Some ==> in_state(old(s).tasks@, (r->0).0 as int, State::Faulted) && final(s).tasks@
            == old(s).tasks@,
        r is None ==> {
            &&& in_state(final(s).tasks@, old(s).current as int, State::Blocked)
            &&& in_state(final(s2).tasks@, old(s).current as int, State::Runnable)
        },
        !final(s).fault_waiters@[j] ==> final(s2).tasks@[j] == final(s).tasks@[j],
{
}

/// There is one supervisor: the task that was last made it.
pub proof fn lemma_one_supervisor(s: &mut Scheduler, id: TaskId, other: TaskId, r: bool)
    requires
        call_ensures(set_supervisor, (s, id), ()),
        call_ensures(is_supervisor, (&*final(s), other), r),
    ensures
        r <==> other == id,
        final(s).tasks@ == old(s).tasks@,
        rest_kept((Scheduler { supervisor: final(s).supervisor, ..*old(s) }), *final(s)),
{
}

/// The canaries are intact exactly if every stack that a task holds still has
/// its own at the bottom.
pub proof fn lemma_canaries_are_watched(k: Kernel, r: bool, i: int)
    requires
        k.wf(),
        0 <= i < 8,
        call_ensures(canaries_intact, (&k,), r),
    ensures
        ({
            let held = k.scheduler.tasks@[i] is Some && k.scheduler.tasks@[i]->0.owns_stack
                && !in_state(k.scheduler.tasks@, i, State::Dead);
            let bottom = k.memory.u64_at(k.scheduler.tasks@[i]->0.stack.0 as int);
            held && bottom != 0x5441_434b_5f43_414e ==> !r
        }),
        !r ==> exists|j: int|
            {
                &&& 0 <= j < 8
                &&& (#[trigger] k.scheduler.tasks@[j]) is Some
                &&& k.scheduler.tasks@[j]->0.owns_stack
                &&& k.memory.u64_at(k.scheduler.tasks@[j]->0.stack.0 as int)
                    != 0x5441_434b_5f43_414e
            },
{
    if !r {
        let j = choose|j: int| 0 <= j < MAX_TASKS && #[trigger] overrun(&k, j);
        assert(k.scheduler.tasks@[j] is Some);
    }
    if k.scheduler.tasks@[i] is Some && r {
        assert(!overrun(&k, i));
    }
}

/// A new task is in the lowest empty slot, ready to run from its entry with its
/// argument, on a stack of its own that nobody had; and nobody else changes.
pub proof fn lemma_spawned_task_is_ready(
    k: &mut Kernel,
    name: &'static str,
    entry: u64,
    arg: u64,
    space: Option<AddressSpace>,
    priority: Priority,
    id: TaskId,
    i: int,
)
    requires
        old(k).wf(),
        0 <= i < 8,
        call_ensures(spawn_in, (k, name, entry, arg, space, priority), id),
    ensures
        new_and_ready(old(k), final(k), id, name, entry, arg, priority, i),
        final(k).scheduler.tasks@[id.0 as int]->0.space == space,
{
}

/// What every new task has in common.
pub open spec fn new_and_ready(
    before: &Kernel,
    after: &Kernel,
    id: TaskId,
    name: &'static str,
    entry: u64,
    arg: u64,
    priority: Priority,
    i: int,
) -> bool {
    let (one, two) = (before.scheduler.tasks@, after.scheduler.tasks@);
    let task = two[id.0 as int]->0;
    let top = task.stack.0 + 16384 - 96;
    &&& id.0 < 8
    &&& one[id.0 as int] is None
    &&& i < id.0 ==> one[i] is Some
    &&& i != id.0 ==> two[i] == one[i]
    &&& in_state(two, id.0 as int, State::Runnable)
    &&& task.name == name && task.priority == priority
    &&& task.exit_code is None && task.fault is None
    &&& task.owns_stack
    &&& before.offset + top <= u64::MAX ==> task.sp == before.offset + top
    &&& after.memory.u64_at(task.stack.0 as int) == 0x5441_434b_5f43_414e
    &&& after.memory.u64_at(top) == entry
    &&& after.memory.u64_at(top + 8) == arg
    &&& after.memory.u64_at(top + 80) == 0
    &&& after.memory.u64_at(top + 88) == before.trampoline
    &&& !before.frames.taken().contains(task.stack.0 as int)
    &&& after.frames.taken().contains(task.stack.0 as int)
    &&& rest_kept(before.scheduler, after.scheduler)
}

/// What a user program finds at an address of its own when it starts: `to` is
/// where the address leads, and the other two are whether it may read and
/// write there.
pub open spec fn starts_from(
    m: Memory,
    text: Seq<u8>,
    arg: u64,
    va: u64,
    to: Option<u64>,
    readable: bool,
    writable: bool,
) -> bool {
    if 0x40_0000 <= va < 0x40_1000 {
        &&& to is Some
        &&& readable && !writable
        &&& va - 0x40_0000 < text.len() ==> m.byte_at(to->0 as int) == text[va - 0x40_0000]
        &&& va - 0x40_0000 >= text.len() ==> m.byte_at(to->0 as int) == 0
    } else if 0x7f_f000 <= va < 0x80_0000 {
        &&& to is Some
        &&& readable && writable
        &&& va < 0x7f_fff8 ==> m.byte_at(to->0 as int) == 0
        &&& va == 0x7f_fff8 ==> m.u64_at(to->0 as int) == arg
    } else {
        to is None && !readable && !writable
    }
}

proof fn lemma_permitted(
    m: Memory,
    root: Frame,
    va: u64,
    readable: bool,
    writable: bool,
)
    requires
        va < 0x1_0000_0000_0000,
        call_ensures(paging::user_readable, (&m, root, va, 1), readable),
        call_ensures(paging::user_writable, (&m, root, va, 1), writable),
    ensures
        readable == paging::permits(paging::stop(m, root.0 as int, va, 0), false),
        writable == paging::permits(paging::stop(m, root.0 as int, va, 0), true),
{
    let s = paging::stop(m, root.0 as int, va, 0);
    assert(readable ==> paging::permits(s, false));
    assert(writable ==> paging::permits(s, true));
}

#[verifier::spinoff_prover]
proof fn lemma_finds_text(m: Memory, root: int, text: Seq<u8>, arg: u64, va: u64)
    requires
        user_image(m, root, text, arg),
        0x40_0000 <= va < 0x40_1000,
    ensures
        ({
            let s = paging::stop(m, root, va, 0);
            let to = paging::translation(s, va);
            &&& paging::permits(s, false) && !paging::permits(s, true)
            &&& to is Some
            &&& va - 0x40_0000 < text.len() ==> m.byte_at(to->0) == text[va - 0x40_0000]
            &&& va - 0x40_0000 >= text.len() ==> m.byte_at(to->0) == 0
        }),
{
    reveal(user_image);
    let k = va - 0x40_0000;
    assert((USER_TEXT_VA + k) as u64 == va);
    assert(paging::byte_of(m, root, USER_TEXT_VA, k) is Some);
}

#[verifier::spinoff_prover]
proof fn lemma_finds_stack(m: Memory, root: int, text: Seq<u8>, arg: u64, va: u64)
    requires
        user_image(m, root, text, arg),
        0x7f_f000 <= va < 0x80_0000,
    ensures
        ({
            let s = paging::stop(m, root, va, 0);
            let to = paging::translation(s, va);
            &&& paging::permits(s, false) && paging::permits(s, true)
            &&& to is Some
            &&& va < 0x7f_fff8 ==> m.byte_at(to->0) == 0
            &&& va == 0x7f_fff8 ==> m.u64_at(to->0) == arg
        }),
{
    reveal(user_image);
    let k = va - 0x7f_f000;
    assert((USER_STACK_VA + k) as u64 == va);
    assert(paging::permits(paging::stop(m, root, va, 0), true));
    if k < 4088 {
        assert(paging::byte_of(m, root, USER_STACK_VA, k) is Some);
    } else {
        let w: u64 = 0x7f_fff8;
        assert((USER_STACK_VA + 4088) as u64 == w);
        assert(paging::byte_of(m, root, USER_STACK_VA, 4088) is Some);
        paging::lemma_same_page(m, root, w, va);
    }
}

#[verifier::spinoff_prover]
proof fn lemma_finds_nothing(m: Memory, root: int, text: Seq<u8>, arg: u64, va: u64)
    requires
        user_image(m, root, text, arg),
        va < 0x1_0000_0000_0000,
        !(0x40_0000 <= va < 0x40_1000),
        !(0x7f_f000 <= va < 0x80_0000),
    ensures
        !paging::valid(paging::stop(m, root, va, 0).1),
{
    reveal(user_image);
    lemma_user_split();
    assert(paging::low(va) == va);
}

proof fn lemma_starts_from(
    m: Memory,
    root: Frame,
    text: Seq<u8>,
    arg: u64,
    va: u64,
    to: Option<u64>,
    readable: bool,
    writable: bool,
)
    requires
        user_image(m, root.0 as int, text, arg),
        va < 0x1_0000_0000_0000,
        call_ensures(paging::translate, (&m, root, va), to),
        call_ensures(paging::user_readable, (&m, root, va, 1), readable),
        call_ensures(paging::user_writable, (&m, root, va, 1), writable),
    ensures
        starts_from(m, text, arg, va, to, readable, writable),
{
    let r = root.0 as int;
    lemma_permitted(m, root, va, readable, writable);
    if 0x40_0000 <= va < 0x40_1000 {
        lemma_finds_text(m, r, text, arg, va);
    } else if 0x7f_f000 <= va < 0x80_0000 {
        lemma_finds_stack(m, r, text, arg, va);
    } else {
        lemma_finds_nothing(m, r, text, arg, va);
    }
}

/// A new user task is in the lowest empty slot, ready to run its program from
/// the first byte at EL0, in an address space and on a stack of its own; and
/// nobody else changes.
pub proof fn lemma_user_program_is_ready(
    k: &mut Kernel,
    name: &'static str,
    text: &'static [u8],
    arg: u64,
    priority: Priority,
    id: TaskId,
    i: int,
)
    requires
        old(k).wf(),
        0 <= i < 8,
        call_ensures(spawn_user_program, (k, name, text, arg, priority), id),
    ensures
        new_and_ready(old(k), final(k), id, name, old(k).user_entry, 0x40_0000, priority, i),
        final(k).scheduler.tasks@[id.0 as int]->0.space is Some,
        final(k).scheduler.tasks@[id.0 as int]->0.image == Some(Image { text, arg }),
        final(k).frames.free_count() == old(k).frames.free_count() - 11,
{
    let stack = final(k).scheduler.tasks@[id.0 as int]->0.stack;
    let task = final(k).scheduler.tasks@[id.0 as int];
    assert(frames::run(stack.0 as int, 4).contains(stack.0 as int));
    assert(stack_claim(task->0).contains(stack.0 as int));
    assert(claim(final(k).memory, task).contains(stack.0 as int));
}

/// It finds its program and its argument where it expects them, and nothing
/// anywhere else.
pub proof fn lemma_user_program_finds_its_own(
    k: &mut Kernel,
    name: &'static str,
    text: &'static [u8],
    arg: u64,
    priority: Priority,
    id: TaskId,
    va: u64,
    to: Option<u64>,
    readable: bool,
    writable: bool,
)
    requires
        va < 0x1_0000_0000_0000,
        call_ensures(spawn_user_program, (k, name, text, arg, priority), id),
        ({
            let m = final(k).memory;
            let root = final(k).scheduler.tasks@[id.0 as int]->0.space->0.root;
            &&& call_ensures(paging::translate, (&m, root, va), to)
            &&& call_ensures(paging::user_readable, (&m, root, va, 1), readable)
            &&& call_ensures(paging::user_writable, (&m, root, va, 1), writable)
        }),
    ensures
        starts_from(final(k).memory, text@, arg, va, to, readable, writable),
{
    let task = final(k).scheduler.tasks@[id.0 as int]->0;
    lemma_starts_from(
        final(k).memory,
        task.space->0.root,
        text@,
        arg,
        va,
        to,
        readable,
        writable,
    );
}

/// Whatever anybody had before, they still have, unchanged.
pub proof fn lemma_user_program_disturbs_nobody(
    k: &mut Kernel,
    name: &'static str,
    text: &'static [u8],
    arg: u64,
    priority: Priority,
    id: TaskId,
    q: int,
)
    requires
        old(k).wf(),
        call_ensures(spawn_user_program, (k, name, text, arg, priority), id),
        old(k).frames.taken().contains(frames::round_down(q)),
    ensures
        final(k).frames.taken().contains(frames::round_down(q)),
        old(k).memory.has(q, 1) ==> final(k).memory.byte_at(q) == old(k).memory.byte_at(q),
{
}

/// Only a task that faulted, and that there is a program for, is restarted. It
/// keeps its slot, its name, its priority and its stack, and is as ready as
/// when it was new: its program and its argument where it expects them, and
/// none of what it left behind. Restarting it costs no memory. Whoever was
/// stuck on it is told that it is dead, restarted or not, and nobody else
/// changes.
pub proof fn lemma_restarted_task_is_as_new(
    k: &mut Kernel,
    t: &mut ipc::Table,
    id: TaskId,
    r: bool,
    i: int,
    va: u64,
    to: Option<u64>,
    readable: bool,
    writable: bool,
)
    requires
        old(k).wf(),
        old(t).wf(),
        id.0 < 8,
        0 <= i < 8,
        va < 0x1_0000_0000_0000,
        call_ensures(restart, (k, t, id), r),
        r ==> ({
            let m = final(k).memory;
            let root = final(k).scheduler.tasks@[id.0 as int]->0.space->0.root;
            &&& call_ensures(paging::translate, (&m, root, va), to)
            &&& call_ensures(paging::user_readable, (&m, root, va, 1), readable)
            &&& call_ensures(paging::user_writable, (&m, root, va, 1), writable)
        }),
    ensures
        ({
            let me = id.0 as int;
            let (one, two) = (old(k).scheduler.tasks@, final(k).scheduler.tasks@);
            let (was, task) = (one[me]->0, two[me]->0);
            let top = was.stack.0 + 16384 - 96;
            &&& r <==> in_state(one, me, State::Faulted) && was.image is Some
            &&& r ==> {
                &&& in_state(two, me, State::Runnable)
                &&& task.fault is None && task.exit_code is None
                &&& task.name == was.name && task.priority == was.priority
                &&& task.stack == was.stack && task.image == was.image
                &&& old(k).offset + top <= u64::MAX ==> task.sp == old(k).offset + top
                &&& final(k).memory.u64_at(top) == old(k).user_entry
                &&& final(k).memory.u64_at(top + 8) == 0x40_0000
                &&& final(k).memory.u64_at(top + 88) == old(k).trampoline
                &&& starts_from(
                    final(k).memory,
                    was.image->0.text@,
                    was.image->0.arg,
                    va,
                    to,
                    readable,
                    writable,
                )
            }
            &&& !r ==> two[me] == one[me] && final(k).memory == old(k).memory
            &&& final(k).frames.free_count() == old(k).frames.free_count()
            &&& i != me && stuck_on(old(t).pending@, i, me) ==> {
                &&& final(t).pending@[i] is None
                &&& final(t).outcome@[i].a == 0xffff_ffff_ffff_fffd
                &&& in_state(one, i, State::Blocked) ==> in_state(two, i, State::Runnable)
            }
            &&& i != me && !stuck_on(old(t).pending@, i, me) ==> two[i] == one[i]
                && final(t).pending@[i] == old(t).pending@[i]
        }),
        rest_kept(old(k).scheduler, final(k).scheduler),
{
    let me = id.0 as int;
    let was = old(k).scheduler.tasks@[me]->0;
    if r {
        let task = final(k).scheduler.tasks@[me]->0;
        let image = was.image->0;
        lemma_starts_from(
            final(k).memory,
            task.space->0.root,
            image.text@,
            image.arg,
            va,
            to,
            readable,
            writable,
        );
        assert(sound_task(old(k).memory, old(k).scheduler.tasks@[me]));
    }
}

/// The programs the kernel knows are spawned like any other: at the usual
/// priority where none is asked for, with no argument, and a client with the
/// task it is to talk to.
pub proof fn lemma_known_programs(
    k: &mut Kernel,
    name: &'static str,
    text: &'static [u8],
    server: TaskId,
    priority: Priority,
    which: int,
    id: TaskId,
)
    requires
        old(k).wf(),
        which == 0 ==> call_ensures(spawn_user, (k, name, text), id),
        which == 1 ==> call_ensures(spawn_faulting_user, (k, name, text), id),
        which == 2 ==> call_ensures(spawn_ipc_server, (k, name, text, priority), id),
        which == 3 ==> call_ensures(spawn_ipc_client, (k, name, text, server, priority), id),
        0 <= which < 4,
    ensures
        ({
            let task = final(k).scheduler.tasks@[id.0 as int]->0;
            &&& old(k).scheduler.tasks@[id.0 as int] is None
            &&& in_state(final(k).scheduler.tasks@, id.0 as int, State::Runnable)
            &&& task.name == name
            &&& task.space is Some
            &&& task.image is Some && task.image->0.text == text
            &&& which < 3 ==> task.image->0.arg == 0
            &&& which == 3 ==> task.image->0.arg == server.0
            &&& which < 2 ==> task.priority == Priority(1)
            &&& which >= 2 ==> task.priority == priority
        }),
        final(k).frames.free_count() == old(k).frames.free_count() - 11,
{
}

/// Kernel tasks likewise: at the usual priority where none is asked for, and
/// with no address space of their own.
pub proof fn lemma_kernel_tasks(
    k: &mut Kernel,
    name: &'static str,
    entry: u64,
    arg: u64,
    priority: Priority,
    chosen: bool,
    id: TaskId,
    i: int,
)
    requires
        old(k).wf(),
        0 <= i < 8,
        chosen ==> call_ensures(spawn_at, (k, name, entry, arg, priority), id),
        !chosen ==> call_ensures(spawn, (k, name, entry, arg), id),
    ensures
        new_and_ready(
            old(k),
            final(k),
            id,
            name,
            entry,
            arg,
            if chosen {
                priority
            } else {
                Priority(1)
            },
            i,
        ),
        final(k).scheduler.tasks@[id.0 as int]->0.space is None,
        final(k).scheduler.tasks@[id.0 as int]->0.image is None,
{
}

/// The heartbeat has the timer: a timer interrupt after it was started posts
/// its bit to it, and wakes it if it waits for that.
pub proof fn lemma_heartbeat_hears_the_timer(
    k: &mut Kernel,
    n: &mut notify::Notifications,
    text: &'static [u8],
    id: TaskId,
    i: int,
)
    requires
        old(k).wf(),
        old(n).wf(),
        forall|j: int|
            0 <= j < 8 && (#[trigger] old(n).routes@[j]) is Some ==> old(n).routes@[j]->0.intid
                != 30,
        0 <= i < 8,
        call_ensures(spawn_heartbeat, (k, n, text), id),
    ensures
        exists|j: int|
            0 <= j < 8 && #[trigger] final(n).routes@[j] == Some(
                notify::Route { intid: 30, task: id, bits: 1 },
            ),
        final(n).routes@[i] is Some && final(n).routes@[i]->0.intid == 30
            ==> final(n).routes@[i]->0.task == id && final(n).routes@[i]->0.bits == 1,
        old(n).routes@[i] is Some ==> final(n).routes@[i] == old(n).routes@[i],
        final(n).posted == old(n).posted,
        in_state(final(k).scheduler.tasks@, id.0 as int, State::Runnable),
        final(k).scheduler.tasks@[id.0 as int]->0.priority == Priority(1),
{
    let at = choose|j: int|
        {
            &&& 0 <= j < notify::MAX_ROUTES
            &&& (#[trigger] old(n).routes@[j]) is None
            &&& forall|m: int| 0 <= m < j ==> old(n).routes@[m] is Some
            &&& final(n).routes@ == old(n).routes@.update(
                j,
                Some(notify::Route { intid: timer::TIMER_INTID, task: id, bits: 1 }),
            )
        };
    assert(final(n).routes@[at] == Some(notify::Route { intid: 30, task: id, bits: 1 }));
}

/// The context that boots is task 0: running, and outranked by everyone.
pub proof fn lemma_boot_is_the_idle_task(k: &mut Kernel, r: bool, other: Priority, i: int)
    requires
        old(k).wf(),
        0 < i < 8,
        call_ensures(init, (k,), ()),
        call_ensures(
            Priority::outranks,
            (other, final(k).scheduler.tasks@[0]->0.priority),
            r,
        ),
    ensures
        final(k).scheduler.current == 0,
        in_state(final(k).scheduler.tasks@, 0, State::Runnable),
        !final(k).scheduler.tasks@[0]->0.owns_stack,
        final(k).scheduler.tasks@[0]->0.space is None,
        r <==> other.0 != 255,
        final(k).scheduler.tasks@[i] == old(k).scheduler.tasks@[i],
        final(k).frames == old(k).frames,
        final(k).memory == old(k).memory,
{
}

/// Of two priorities the smaller number goes first.
pub proof fn lemma_smaller_goes_first(one: Priority, two: Priority, r: bool, other: bool)
    requires
        call_ensures(Priority::outranks, (one, two), r),
        call_ensures(Priority::outranks, (two, one), other),
    ensures
        r <==> one.0 < two.0,
        other <==> two.0 < one.0,
        !(r && other),
        !r && !other ==> one == two,
{
}

/// The log keeps the first switches, in order, and counts the rest; and it
/// counts every preemption, kept or not.
pub proof fn lemma_switches_are_logged(
    log: &mut SwitchLog,
    from: usize,
    to: usize,
    reason: Reason,
    i: int,
)
    requires
        old(log).wf(),
        call_ensures(note_switch, (log, from, to, reason), ()),
        0 <= i < old(log).entries@.len(),
    ensures
        final(log).entries@[i] == old(log).entries@[i],
        old(log).entries@.len() < 32 ==> {
            &&& final(log).entries@.len() == old(log).entries@.len() + 1
            &&& final(log).entries@.last().from == from && final(log).entries@.last().to == to
            &&& final(log).entries@.last().preemptive <==> reason == Reason::Preemptive
            &&& final(log).overflow == old(log).overflow
        },
        old(log).entries@.len() >= 32 ==> final(log).entries@ == old(log).entries@,
        old(log).entries@.len() >= 32 && old(log).overflow < usize::MAX
            ==> final(log).overflow == old(log).overflow + 1,
        reason != Reason::Preemptive ==> final(log).preemptions == old(log).preemptions,
        reason == Reason::Preemptive && old(log).preemptions < usize::MAX
            ==> final(log).preemptions == old(log).preemptions + 1,
{
}

/// Switching gives the CPU to whoever goes next, and is logged for what it was.
pub proof fn lemma_switch_gives_the_cpu(k: &mut Kernel, reason: Reason, r: Option<Handoff>)
    requires
        old(k).wf(),
        old(k).scheduler.tasks@[old(k).scheduler.current as int] is Some,
        any_runnable(old(k).scheduler.tasks@),
        call_ensures(switch_to_next, (k, reason), r),
    ensures
        cpu_given(old(k), old(k).scheduler.tasks@, final(k), reason == Reason::Preemptive, r),
        final(k).scheduler.need_resched == old(k).scheduler.need_resched,
{
    lemma_cpu_given(old(k), old(k).scheduler.tasks@, final(k), reason, r);
}

/// How a task ended is there to be read afterwards: the code it gave.
pub proof fn lemma_exit_code_is_kept(
    k: &mut Kernel,
    t: &mut ipc::Table,
    code: u64,
    read: Option<u64>,
    done: bool,
)
    requires
        old(k).wf(),
        old(t).wf(),
        old(k).scheduler.tasks@[old(k).scheduler.current as int] is Some,
        call_ensures(exit_current, (k, t, code), ()),
        call_ensures(
            exit_code,
            (&final(k).scheduler, TaskId(old(k).scheduler.current)),
            read,
        ),
        call_ensures(finished, (&final(k).scheduler, TaskId(old(k).scheduler.current)), done),
    ensures
        read == Some(code),
        done,
{
}

/// Or what it did wrong.
pub proof fn lemma_fault_can_be_read(
    k: &mut Kernel,
    t: &mut ipc::Table,
    fault: Fault,
    read: Option<Fault>,
    done: bool,
    first: Option<TaskId>,
)
    requires
        old(k).wf(),
        old(t).wf(),
        old(k).scheduler.tasks@[old(k).scheduler.current as int] is Some,
        call_ensures(fault_current, (k, t, fault), ()),
        call_ensures(
            fault_of,
            (&final(k).scheduler, TaskId(old(k).scheduler.current)),
            read,
        ),
        call_ensures(is_faulted, (&final(k).scheduler, TaskId(old(k).scheduler.current)), done),
        call_ensures(first_faulted, (&final(k).scheduler,), first),
    ensures
        read == Some(fault),
        done,
        first is Some && (first->0).0 <= old(k).scheduler.current,
{
    assert(in_state(
        final(k).scheduler.tasks@,
        old(k).scheduler.current as int,
        State::Faulted,
    ));
}

/// A task that has no address space of its own runs in an empty one: it is made
/// once, of one frame that nobody had, and no address leads anywhere through
/// it.
pub proof fn lemma_fallback_space_is_one_frame(
    k: &mut Kernel,
    r: Frame,
    root: Frame,
    q: int,
    va: u64,
    to: Option<u64>,
)
    requires
        old(k).wf(),
        call_ensures(paging::translate, (&final(k).memory, root, va), to),
        call_ensures(init_address_spaces, (k,), r),
        call_ensures(empty_space_root, (&*final(k),), root),
    ensures
        root == r,
        to is None,
        !old(k).frames.taken().contains(r.0 as int),
        final(k).frames.taken().contains(q) <==> q == r.0 || old(k).frames.taken().contains(q),
        final(k).scheduler == old(k).scheduler,
{
}

/// A trace keeps the first eight turns and an order the first sixteen runs, in
/// the order they came.
pub proof fn lemma_first_turns_are_kept(
    trace: &mut Trace,
    turn: u64,
    value: u64,
    order: &mut Order,
    run: u8,
    i: int,
)
    requires
        call_ensures(record, (trace, turn, value), ()),
        call_ensures(note_run, (order, run), ()),
        0 <= i,
    ensures
        i < old(trace).entries@.len() ==> final(trace).entries@[i] == old(trace).entries@[i],
        old(trace).entries@.len() < 8 ==> final(trace).entries@.len() == old(trace).entries@.len()
            + 1 && final(trace).entries@.last() == (turn, value),
        old(trace).entries@.len() >= 8 ==> final(trace).entries@.len()
            == old(trace).entries@.len(),
        i < old(order).tags@.len() ==> final(order).tags@[i] == old(order).tags@[i],
        old(order).tags@.len() < 16 ==> final(order).tags@.len() == old(order).tags@.len() + 1
            && final(order).tags@.last() == run,
        old(order).tags@.len() >= 16 ==> final(order).tags@.len() == old(order).tags@.len(),
{
}

/// What a program reports is what it is taken for: one bit for each check, and
/// several at once for anything else.
pub proof fn lemma_reports_are_told_apart(
    code: u64,
    client: &'static str,
    lease: &'static str,
    supervisor: &'static str,
)
    requires
        call_ensures(client_failure, (code,), client),
        call_ensures(lease_failures, (code,), lease),
        call_ensures(supervisor_failures, (code,), supervisor),
    ensures
        code == 1 ==> client@ == "the server reported the message arrived wrong"@,
        code == 2 ==> client@ == "the reply was the wrong length"@,
        code == 3 ==> client@ == "the reply bytes did not survive the copy"@,
        code == 4 ==> client@ == "sending to a dead task did not return EDEAD"@,
        code == 0 || code > 4 ==> client@ == "unknown failure"@,
        code == 1 ==> lease@ == "reading a lease it was given failed"@,
        code == 2 ==> lease@ == "reading a lease produced the wrong bytes"@,
        code == 4 ==> lease@ == "writing a lease it was given failed"@,
        code == 8 ==> lease@ == "a borrow past the end of a lease was allowed"@,
        code == 16 ==> lease@ == "writing a read only lease was allowed"@,
        code == 32 ==> lease@ == "a lease index nobody lent it was accepted"@,
        code == 64 ==> lease@ == "a borrow after the reply still worked"@,
        code == 1 ==> supervisor@ == "the fault reported was not the task being watched"@,
        code == 2 ==> supervisor@
            == "the first fault was not at the address the victim aimed at"@,
        code == 4 ==> supervisor@ == "restart was refused"@,
        code == 8 ==> supervisor@ == "the restarted task came back with a different identity"@,
        code == 16 ==> supervisor@ == "the restarted task found its old memory still there"@,
{
}

/// Marking, waking and alerting change who can run, and nothing else of the
/// scheduler.
pub proof fn lemma_waking_keeps_the_rest(
    one: &mut Scheduler,
    two: &mut Scheduler,
    id: TaskId,
    above: bool,
    three: &mut Scheduler,
)
    requires
        old(one).wf(),
        old(two).wf(),
        old(three).wf(),
        call_ensures(mark_current_blocked, (one,), ()),
        call_ensures(unblock_deferred, (two, id), above),
        call_ensures(wake_fault_waiters, (three,), ()),
    ensures
        rest_kept(*old(one), *final(one)),
        rest_kept(*old(two), *final(two)),
        rest_kept(*old(three), *final(three)),
{
}

} // verus!
