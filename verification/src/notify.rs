//! Notifications: how an interrupt reaches a driver that runs at EL0.
//!
//! The kernel's part in a device interrupt is to acknowledge it, set a bit,
//! and get out. Two of the same event before the task gets a turn collapse
//! into one bit: a notification says something happened, never how many times.

use vstd::prelude::*;

use crate::tasks;
use crate::tasks::{Scheduler, TaskId, MAX_TASKS};

verus! {

/// How many interrupt lines can be routed to tasks at once.
pub const MAX_ROUTES: usize = 8;

/// Which task hears about an interrupt, and as which bits.
#[derive(Clone, Copy, PartialEq, Eq, Debug, Structural)]
pub struct Route {
    pub intid: u32,
    pub task: TaskId,
    pub bits: u32,
}

/// Routes, and what each task has been told and is waiting for.
#[derive(Debug)]
pub struct Notifications {
    pub routes: Vec<Option<Route>>,
    /// Notifications posted to each task and not yet collected.
    pub posted: Vec<u32>,
    /// What each task is parked waiting for, or zero if it is not parked.
    pub wanted: Vec<u32>,
}

/// Is route `i` the first for this interrupt?
pub open spec fn routes_to(routes: Seq<Option<Route>>, i: int, intid: u32) -> bool {
    &&& 0 <= i < routes.len()
    &&& routes[i] is Some
    &&& routes[i]->0.intid == intid
    &&& forall|j: int| 0 <= j < i && (#[trigger] routes[j]) is Some ==> routes[j]->0.intid != intid
}

/// The table once `bits` have been posted to `task`.
pub open spec fn posted_to(posted: Seq<u32>, task: int, bits: u32) -> Seq<u32> {
    if 0 <= task < posted.len() {
        posted.update(task, posted[task] | bits)
    } else {
        posted
    }
}

/// Would posting `bits` wake `task`?
pub open spec fn wakes(wanted: Seq<u32>, task: int, bits: u32) -> bool {
    0 <= task < wanted.len() && wanted[task] & bits != 0
}

impl Notifications {
    /// A slot for each route, and a word for each task.
    pub open spec fn wf(&self) -> bool {
        &&& self.routes@.len() == MAX_ROUTES
        &&& self.posted@.len() == MAX_TASKS
        &&& self.wanted@.len() == MAX_TASKS
    }

    /// Nothing routed, nothing posted, nobody waiting.
    pub fn new() -> (n: Notifications)
        ensures
            n.wf(),
            n.routes@ == Seq::new(8, |i: int| None::<Route>),
            n.posted@ == Seq::new(8, |i: int| 0u32),
            n.wanted@ == Seq::new(8, |i: int| 0u32),
    {
        let mut routes: Vec<Option<Route>> = Vec::new();
        let mut posted: Vec<u32> = Vec::new();
        let mut wanted: Vec<u32> = Vec::new();
        let mut i: usize = 0;
        while i < 8
            invariant
                i <= 8,
                routes@ == Seq::new(i as nat, |i: int| None::<Route>),
                posted@ == Seq::new(i as nat, |i: int| 0u32),
                wanted@ == Seq::new(i as nat, |i: int| 0u32),
            decreases 8 - i,
        {
            routes.push(None);
            posted.push(0);
            wanted.push(0);
            i += 1;
        }
        Notifications { routes, posted, wanted }
    }
}

/// Send `intid` to `task` as `bits` from now on. There must be room for
/// another route.
pub fn route(n: &mut Notifications, intid: u32, task: TaskId, bits: u32)
    requires
        old(n).wf(),
        exists|i: int| 0 <= i < MAX_ROUTES && (#[trigger] old(n).routes@[i]) is None,
    ensures
        final(n).wf(),
        final(n).posted == old(n).posted,
        final(n).wanted == old(n).wanted,
        exists|i: int|
            {
                &&& 0 <= i < MAX_ROUTES
                &&& (#[trigger] old(n).routes@[i]) is None
                &&& forall|j: int| 0 <= j < i ==> old(n).routes@[j] is Some
                &&& final(n).routes@ == old(n).routes@.update(
                    i,
                    Some(Route { intid, task, bits }),
                )
            },
{
    let mut slot: usize = 0;
    while n.routes[slot].is_some()
        invariant
            *n == *old(n),
            n.wf(),
            slot < MAX_ROUTES,
            exists|i: int| slot <= i < MAX_ROUTES && (#[trigger] n.routes@[i]) is None,
            forall|j: int| 0 <= j < slot ==> n.routes@[j] is Some,
        decreases MAX_ROUTES - slot,
    {
        proof {
            let i = choose|i: int|
                slot <= i < MAX_ROUTES && (#[trigger] n.routes@[i]) is None;
            assert(i != slot);
        }
        slot += 1;
    }
    n.routes[slot] = Some(Route { intid, task, bits });
    assert(old(n).routes@[slot as int] is None);
}

/// Set notification bits on a task, waking it if it was waiting for any of
/// them.
///
/// Never switches. A bit nobody asked for stays set and is delivered whenever
/// it is next asked for.
pub fn post(n: &mut Notifications, s: &mut Scheduler, task: TaskId, bits: u32)
    requires
        old(n).wf(),
        old(s).wf(),
    ensures
        final(n).wf(),
        final(s).wf(),
        final(n).routes == old(n).routes,
        final(n).wanted == old(n).wanted,
        final(n).posted@ == posted_to(old(n).posted@, task.0 as int, bits),
        final(s).current == old(s).current,
        final(s).log == old(s).log,
        final(s).supervisor == old(s).supervisor,
        final(s).fault_waiters == old(s).fault_waiters,
        final(s).need_resched == (old(s).need_resched || wakes(
            old(n).wanted@,
            task.0 as int,
            bits,
        )),
        final(s).tasks@ == if wakes(old(n).wanted@, task.0 as int, bits) {
            tasks::woken_table(old(s).tasks@, task.0 as int)
        } else {
            old(s).tasks@
        },
{
    if task.0 >= MAX_TASKS {
        return ;
    }
    let now: u32 = n.posted[task.0];
    n.posted[task.0] = now | bits;
    if n.wanted[task.0] & bits != 0 {
        let _ = tasks::unblock_deferred(s, task);
        tasks::request_reschedule(s);
    }
}

/// What delivering an interrupt does: whoever owns it gets its bits, and is
/// woken if it was waiting for one of them.
pub open spec fn irq_effect(
    n1: &Notifications,
    s1: &Scheduler,
    intid: u32,
    n2: &Notifications,
    s2: &Scheduler,
    owned: bool,
) -> bool {
    &&& n2.routes == n1.routes
    &&& n2.wanted == n1.wanted
    &&& owned == exists|i: int| #[trigger] routes_to(n1.routes@, i, intid)
    &&& !owned ==> *n2 == *n1 && *s2 == *s1
    &&& forall|i: int| #[trigger]
        routes_to(n1.routes@, i, intid) ==> {
            let to = n1.routes@[i]->0;
            let wakes = wakes(n1.wanted@, to.task.0 as int, to.bits);
            &&& n2.posted@ == posted_to(n1.posted@, to.task.0 as int, to.bits)
            &&& s2.current == s1.current
            &&& s2.log == s1.log
            &&& s2.supervisor == s1.supervisor
            &&& s2.fault_waiters == s1.fault_waiters
            &&& s2.need_resched == (s1.need_resched || wakes)
            &&& s2.tasks@ == if wakes {
                tasks::woken_table(s1.tasks@, to.task.0 as int)
            } else {
                s1.tasks@
            }
        }
}

/// Deliver an interrupt to whoever owns it. Returns whether anybody did.
pub fn on_irq(n: &mut Notifications, s: &mut Scheduler, intid: u32) -> (r: bool)
    requires
        old(n).wf(),
        old(s).wf(),
    ensures
        final(n).wf(),
        final(s).wf(),
        irq_effect(old(n), old(s), intid, final(n), final(s), r),
{
    let mut slot: usize = 0;
    while slot < MAX_ROUTES
        invariant
            *n == *old(n),
            *s == *old(s),
            n.wf(),
            s.wf(),
            slot <= MAX_ROUTES,
            forall|j: int|
                0 <= j < slot && (#[trigger] n.routes@[j]) is Some ==> n.routes@[j]->0.intid
                    != intid,
        decreases MAX_ROUTES - slot,
    {
        match n.routes[slot] {
            Some(route) => {
                if route.intid == intid {
                    assert(routes_to(n.routes@, slot as int, intid));
                    assert forall|i: int| #[trigger] routes_to(n.routes@, i, intid) implies i
                        == slot by {
                        if i < slot {
                            assert(n.routes@[i] is Some);
                        }
                        if i > slot {
                            assert(n.routes@[slot as int] is Some);
                        }
                    }
                    post(n, s, route.task, route.bits);
                    return true;
                }
            },
            None => {},
        }
        slot += 1;
    }
    assert forall|i: int| !#[trigger] routes_to(n.routes@, i, intid) by {
        if routes_to(n.routes@, i, intid) {
            assert(n.routes@[i] is Some);
        }
    }
    false
}

/// Collect whichever of `mask` have been posted, clearing exactly those.
///
/// Bits outside `mask` are left alone: a task that asks about one event does
/// not thereby discard another it has not got around to.
pub fn take(n: &mut Notifications, task: TaskId, mask: u32) -> (fired: u32)
    requires
        old(n).wf(),
        task.0 < MAX_TASKS,
    ensures
        final(n).wf(),
        final(n).routes == old(n).routes,
        final(n).wanted == old(n).wanted,
        fired == old(n).posted@[task.0 as int] & mask,
        final(n).posted@ == old(n).posted@.update(
            task.0 as int,
            old(n).posted@[task.0 as int] & !fired,
        ),
{
    let now: u32 = n.posted[task.0];
    let fired: u32 = now & mask;
    n.posted[task.0] = now & !fired;
    fired
}

/// Declare what a task is about to park waiting for.
pub fn arm(n: &mut Notifications, task: TaskId, mask: u32)
    requires
        old(n).wf(),
        task.0 < MAX_TASKS,
    ensures
        final(n).wf(),
        final(n).routes == old(n).routes,
        final(n).posted == old(n).posted,
        final(n).wanted@ == old(n).wanted@.update(task.0 as int, mask),
{
    n.wanted[task.0] = mask;
}

/// The task is running again and is not waiting for anything.
pub fn disarm(n: &mut Notifications, task: TaskId)
    requires
        old(n).wf(),
        task.0 < MAX_TASKS,
    ensures
        final(n).wf(),
        final(n).routes == old(n).routes,
        final(n).posted == old(n).posted,
        final(n).wanted@ == old(n).wanted@.update(task.0 as int, 0),
{
    n.wanted[task.0] = 0;
}

/// Forget everything about a task, for a slot that is being reused.
pub fn clear(n: &mut Notifications, task: TaskId)
    requires
        old(n).wf(),
        task.0 < MAX_TASKS,
    ensures
        final(n).wf(),
        final(n).routes == old(n).routes,
        final(n).posted@ == old(n).posted@.update(task.0 as int, 0),
        final(n).wanted@ == old(n).wanted@.update(task.0 as int, 0),
{
    n.posted[task.0] = 0;
    n.wanted[task.0] = 0;
}

/// Two of the same event before the task gets a turn collapse into one.
pub proof fn lemma_posts_collapse(posted: Seq<u32>, task: int, bits: u32)
    ensures
        posted_to(posted_to(posted, task, bits), task, bits) == posted_to(posted, task, bits),
{
    if 0 <= task < posted.len() {
        let p = posted[task];
        assert(p | bits | bits == p | bits) by (bit_vector);
        assert(posted_to(posted_to(posted, task, bits), task, bits) =~= posted_to(
            posted,
            task,
            bits,
        ));
    }
}

/// What was posted is found by the next take that asks for it, is found once,
/// and a take that asks for something else leaves it where it is.
pub proof fn lemma_posted_is_kept(posted: u32, bits: u32, mask: u32)
    ensures
        ({
            let now = posted | bits;
            let fired = now & mask;
            let left = now & !fired;
            &&& fired & bits == bits & mask
            &&& left & mask == 0
            &&& left & !mask == now & !mask
        }),
{
    assert({
        let now = posted | bits;
        let fired = now & mask;
        let left = now & !fired;
        &&& fired & bits == bits & mask
        &&& left & mask == 0
        &&& left & !mask == now & !mask
    }) by (bit_vector);
}

/// A task waiting on one event is not woken by a different one.
pub proof fn lemma_unwanted_does_not_wake(wanted: Seq<u32>, task: int, bits: u32)
    requires
        0 <= task < wanted.len(),
        wanted[task] & bits == 0,
    ensures
        !wakes(wanted, task, bits),
{
}

/// Posting leaves its bits on the task it names, keeps what was there, and
/// touches nobody else's. Whoever waits for one of the bits is put back in the
/// running, and a reschedule is asked for; otherwise no task changes.
pub proof fn lemma_post_reaches_its_task(
    n: &mut Notifications,
    s: &mut Scheduler,
    task: TaskId,
    bits: u32,
)
    requires
        old(n).wf(),
        old(s).wf(),
        task.0 < 8,
        call_ensures(post, (n, s, task, bits), ()),
    ensures
        ({
            let t = task.0 as int;
            let (before, after) = (old(n).posted@[t], final(n).posted@[t]);
            let wanted = old(n).wanted@[t] & bits != 0;
            &&& after & bits == bits
            &&& after & !bits == before & !bits
            &&& wanted ==> final(s).need_resched
            &&& !wanted ==> final(s).need_resched == old(s).need_resched
            &&& wanted && tasks::in_state(old(s).tasks@, t, tasks::State::Blocked)
                ==> tasks::in_state(final(s).tasks@, t, tasks::State::Runnable)
            &&& !wanted ==> final(s).tasks@ == old(s).tasks@
            &&& forall|i: int|
                0 <= i < 8 && i != t ==> {
                    &&& #[trigger] final(s).tasks@[i] == old(s).tasks@[i]
                    &&& final(n).posted@[i] == old(n).posted@[i]
                }
        }),
        final(n).wanted@ == old(n).wanted@,
        final(s).current == old(s).current,
{
    let before = old(n).posted@[task.0 as int];
    assert((before | bits) & bits == bits && (before | bits) & !bits == before & !bits)
        by (bit_vector);
}

/// Posting to a task there is no slot for does nothing.
pub proof fn lemma_post_to_nobody(
    n: &mut Notifications,
    s: &mut Scheduler,
    task: TaskId,
    bits: u32,
)
    requires
        old(n).wf(),
        old(s).wf(),
        task.0 >= 8,
        call_ensures(post, (n, s, task, bits), ()),
    ensures
        final(n).posted@ == old(n).posted@,
        final(n).wanted@ == old(n).wanted@,
        final(s).tasks@ == old(s).tasks@,
        final(s).need_resched == old(s).need_resched,
{
}

/// Delivering an interrupt is posting its bits to its owner: whatever posting
/// them would have done to the notifications and the tasks, the interrupt did.
///
/// The owner is whoever the line was routed to first.
pub proof fn lemma_irq_is_a_post(
    n: &mut Notifications,
    s: &mut Scheduler,
    intid: u32,
    owned: bool,
    n2: &mut Notifications,
    s2: &mut Scheduler,
    i: int,
    task: TaskId,
    bits: u32,
)
    requires
        old(n).wf(),
        old(s).wf(),
        *old(n2) == *old(n),
        *old(s2) == *old(s),
        0 <= i < 8,
        old(n).routes@[i] == Some(Route { intid, task, bits }),
        forall|j: int| 0 <= j < i ==> match #[trigger] old(n).routes@[j] {
            Some(route) => route.intid != intid,
            None => true,
        },
        call_ensures(on_irq, (n, s, intid), owned),
        call_ensures(post, (n2, s2, task, bits), ()),
    ensures
        owned,
        final(n).posted@ == final(n2).posted@,
        final(n).wanted@ == final(n2).wanted@,
        final(n).routes@ == final(n2).routes@,
        final(s).tasks@ == final(s2).tasks@,
        final(s).need_resched == final(s2).need_resched,
        final(s).current == final(s2).current,
        final(s).log == final(s2).log,
        final(s).supervisor == final(s2).supervisor,
        final(s).fault_waiters == final(s2).fault_waiters,
{
    assert forall|j: int| 0 <= j < i && (#[trigger] old(n).routes@[j]) is Some implies old(
        n,
    ).routes@[j]->0.intid != intid by {
    }
    assert(routes_to(old(n).routes@, i, intid));
}

/// A driver that is parked on its interrupt is woken by it, and finds its bits.
pub proof fn lemma_irq_wakes_its_driver(
    n: &mut Notifications,
    s: &mut Scheduler,
    intid: u32,
    owned: bool,
    i: int,
)
    requires
        old(n).wf(),
        old(s).wf(),
        0 <= i < 8,
        old(n).routes@[i] is Some,
        old(n).routes@[i]->0.intid == intid,
        old(n).routes@[i]->0.task.0 < 8,
        forall|j: int| 0 <= j < i ==> match #[trigger] old(n).routes@[j] {
            Some(route) => route.intid != intid,
            None => true,
        },
        call_ensures(on_irq, (n, s, intid), owned),
    ensures
        owned,
        ({
            let bits = old(n).routes@[i]->0.bits;
            let t = old(n).routes@[i]->0.task.0 as int;
            let wanted = old(n).wanted@[t] & bits != 0;
            &&& final(n).posted@[t] & bits == bits
            &&& wanted ==> final(s).need_resched
            &&& wanted && tasks::in_state(old(s).tasks@, t, tasks::State::Blocked)
                ==> tasks::in_state(final(s).tasks@, t, tasks::State::Runnable)
            &&& forall|j: int|
                0 <= j < 8 && j != t ==> {
                    &&& #[trigger] final(s).tasks@[j] == old(s).tasks@[j]
                    &&& final(n).posted@[j] == old(n).posted@[j]
                }
        }),
{
    let route = old(n).routes@[i]->0;
    let before = old(n).posted@[route.task.0 as int];
    let bits = route.bits;
    assert forall|j: int| 0 <= j < i && (#[trigger] old(n).routes@[j]) is Some implies old(
        n,
    ).routes@[j]->0.intid != intid by {
    }
    assert(routes_to(old(n).routes@, i, intid));
    assert((before | bits) & bits == bits) by (bit_vector);
}

/// An interrupt that is routed to nobody is nobody's, and changes nothing.
pub proof fn lemma_stray_irq(n: &mut Notifications, s: &mut Scheduler, intid: u32, owned: bool)
    requires
        old(n).wf(),
        old(s).wf(),
        forall|j: int| 0 <= j < 8 ==> match #[trigger] old(n).routes@[j] {
            Some(route) => route.intid != intid,
            None => true,
        },
        call_ensures(on_irq, (n, s, intid), owned),
    ensures
        !owned,
        *final(n) == *old(n),
        *final(s) == *old(s),
{
    if exists|i: int| #[trigger] routes_to(old(n).routes@, i, intid) {
        let i = choose|i: int| #[trigger] routes_to(old(n).routes@, i, intid);
        assert(old(n).routes@[i]->0.intid == intid);
    }
}

/// A line that has just been routed, and was not routed before, is its task's:
/// its next interrupt leaves the bits it was routed as on the task it was
/// routed to.
pub proof fn lemma_routed_line_is_heard(
    n: &mut Notifications,
    intid: u32,
    task: TaskId,
    bits: u32,
    n2: &mut Notifications,
    s2: &mut Scheduler,
    owned: bool,
)
    requires
        old(n).wf(),
        task.0 < 8,
        forall|j: int| 0 <= j < 8 ==> match #[trigger] old(n).routes@[j] {
            Some(route) => route.intid != intid,
            None => true,
        },
        call_ensures(route, (n, intid, task, bits), ()),
        *old(n2) == *final(n),
        old(s2).wf(),
        call_ensures(on_irq, (n2, s2, intid), owned),
    ensures
        owned,
        final(n2).posted@[task.0 as int] & bits == bits,
        forall|j: int|
            0 <= j < 8 && j != task.0 ==> #[trigger] final(n2).posted@[j] == old(n).posted@[j],
{
    let i = choose|i: int|
        {
            &&& 0 <= i < MAX_ROUTES
            &&& (#[trigger] old(n).routes@[i]) is None
            &&& forall|j: int| 0 <= j < i ==> old(n).routes@[j] is Some
            &&& final(n).routes@ == old(n).routes@.update(i, Some(Route { intid, task, bits }))
        };
    assert forall|j: int| 0 <= j < i implies match #[trigger] old(n2).routes@[j] {
        Some(route) => route.intid != intid,
        None => true,
    } by {
        assert(old(n2).routes@[j] == old(n).routes@[j]);
    }
    lemma_irq_wakes_its_driver(n2, s2, intid, owned, i);
}

/// Routing one line leaves every line that was routed before with its owner.
pub proof fn lemma_routes_are_kept(
    n: &mut Notifications,
    intid: u32,
    task: TaskId,
    bits: u32,
    i: int,
)
    requires
        old(n).wf(),
        0 <= i < 8,
        old(n).routes@[i] is Some,
        call_ensures(route, (n, intid, task, bits), ()),
    ensures
        final(n).routes@[i] == old(n).routes@[i],
        final(n).posted@ == old(n).posted@,
        final(n).wanted@ == old(n).wanted@,
{
}

/// What is posted is collected by the next take that asks for it, and by no
/// take after that.
pub proof fn lemma_posted_is_taken_once(
    n: &mut Notifications,
    s: &mut Scheduler,
    task: TaskId,
    bits: u32,
    n2: &mut Notifications,
    mask: u32,
    first: u32,
    n3: &mut Notifications,
    again: u32,
)
    requires
        old(n).wf(),
        old(s).wf(),
        task.0 < 8,
        call_ensures(post, (n, s, task, bits), ()),
        *old(n2) == *final(n),
        call_ensures(take, (n2, task, mask), first),
        *old(n3) == *final(n2),
        call_ensures(take, (n3, task, mask), again),
    ensures
        first & bits == bits & mask,
        first & !mask == 0,
        again == 0,
        final(n3).posted@[task.0 as int] & !mask == final(n).posted@[task.0 as int] & !mask,
        forall|i: int|
            0 <= i < 8 && i != task.0 ==> #[trigger] final(n3).posted@[i] == old(n).posted@[i],
{
    let t = task.0 as int;
    let p = old(n).posted@[t];
    assert({
        let now = p | bits;
        let fired = now & mask;
        let left = now & !fired;
        &&& fired & bits == bits & mask
        &&& fired & !mask == 0
        &&& left & mask == 0
        &&& (left & !(left & mask)) & !mask == now & !mask
    }) by (bit_vector);
}

/// Posting wakes a task that is armed for one of the bits, and posting
/// anything to one that has been disarmed, or is armed for other bits, wakes
/// nobody.
pub proof fn lemma_armed_is_woken(
    n: &mut Notifications,
    task: TaskId,
    mask: u32,
    n2: &mut Notifications,
    s2: &mut Scheduler,
    bits: u32,
)
    requires
        old(n).wf(),
        task.0 < 8,
        call_ensures(arm, (n, task, mask), ()) || mask == 0 && call_ensures(disarm, (n, task), ())
            || mask == 0 && call_ensures(clear, (n, task), ()),
        *old(n2) == *final(n),
        old(s2).wf(),
        call_ensures(post, (n2, s2, task, bits), ()),
    ensures
        mask & bits != 0 ==> final(s2).need_resched,
        mask & bits != 0 && tasks::in_state(
            old(s2).tasks@,
            task.0 as int,
            tasks::State::Blocked,
        ) ==> tasks::in_state(final(s2).tasks@, task.0 as int, tasks::State::Runnable),
        mask & bits == 0 ==> final(s2).need_resched == old(s2).need_resched,
        mask & bits == 0 ==> final(s2).tasks@ == old(s2).tasks@,
{
    assert(0u32 & bits == 0) by (bit_vector);
}

/// A slot that has been cleared has nothing left to collect.
pub proof fn lemma_cleared_is_empty(
    n: &mut Notifications,
    task: TaskId,
    n2: &mut Notifications,
    mask: u32,
    fired: u32,
)
    requires
        old(n).wf(),
        task.0 < 8,
        call_ensures(clear, (n, task), ()),
        *old(n2) == *final(n),
        call_ensures(take, (n2, task, mask), fired),
    ensures
        fired == 0,
        forall|i: int|
            0 <= i < 8 && i != task.0 ==> {
                &&& #[trigger] final(n2).posted@[i] == old(n).posted@[i]
                &&& final(n2).wanted@[i] == old(n).wanted@[i]
            },
{
    assert(0u32 & mask == 0) by (bit_vector);
}

} // verus!
