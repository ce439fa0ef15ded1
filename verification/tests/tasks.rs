use the_rack::exceptions::Fault;
use the_rack::frames::{alloc_frame, free_frames, init, FRAME_SIZE};
use the_rack::ipc::{self, Table};
use the_rack::memory::Memory;
use the_rack::notify::Notifications;
use the_rack::paging::{self, AddressSpace, Attributes};
use the_rack::tasks::{
    self, block_current, canaries_intact, client_failure, current_id, empty_space_root,
    exit_code, exit_current, fault_current, fault_of, finished, free_slots, is_alive, is_blocked,
    is_dead, is_faulted, is_supervisor, kill, lease_failures, note_run, park, preempt_if_needed,
    priority_of, reap_zombies, record, release_dead, request_reschedule, reset_order,
    reset_switch_log, restart, runnable_others, set_supervisor, space_root_of, spawn, spawn_at,
    spawn_faulting_user, spawn_heartbeat, spawn_in, spawn_ipc_client, spawn_ipc_server,
    spawn_user, spawn_user_program, supervisor_failures, task_finished, unblock,
    unblock_deferred, wait_for_fault, yield_now, Kernel, Order, Priority, Reason, State, TaskId,
    Trace, STACK_CANARY,
};
use the_rack::timer::TIMER_INTID;

const BASE: u64 = 0x4000_0000;
const SIZE: u64 = 0x10_0000;
const OFFSET: u64 = 0xffff_0000_0000_0000;
const TRAMPOLINE: u64 = 0xffff_0000_4008_1000;
const USER_ENTRY: u64 = 0xffff_0000_4008_2000;

static PROGRAM: [u8; 12] = [1, 2, 3, 4, 5, 6, 7, 8, 9, 10, 11, 12];

fn booted() -> Kernel {
    let mut k = Kernel::new(
        init(BASE, SIZE, BASE + 0x4000),
        Memory::new(BASE, SIZE as usize),
        OFFSET,
        TRAMPOLINE,
        USER_ENTRY,
    );
    tasks::init_address_spaces(&mut k);
    tasks::init(&mut k);
    k
}

fn state(k: &Kernel, id: TaskId) -> State {
    k.scheduler.tasks[id.0].as_ref().unwrap().state
}

#[test]
fn tasks_alternate_and_keep_their_locals() {
    let mut k = booted();
    let mut t = Table::new();
    let mut trace = Trace::new();
    spawn(&mut k, "ping", 0, 1);
    spawn(&mut k, "pong", 0, 2);
    let mut locals = [0u64; 8];
    let mut turns = [0; 8];
    loop {
        let me = current_id(&k.scheduler).0;
        if me == 0 {
            // Task 0 stays in the rotation and does nothing but hand on.
            if runnable_others(&k.scheduler) == 0 {
                break;
            }
        } else if turns[me] == 3 {
            task_finished(&mut k, &mut t);
        } else {
            let tag = me as u64;
            if turns[me] == 0 {
                locals[me] = tag * 1000;
            }
            locals[me] += 1;
            turns[me] += 1;
            record(&mut trace, tag, locals[me]);
        }
        yield_now(&mut k);
    }
    assert_eq!(
        trace.entries,
        vec![(1, 1001), (2, 2001), (1, 1002), (2, 2002), (1, 1003), (2, 2003)]
    );
    assert!(canaries_intact(&k));
    reap_zombies(&mut k);
    assert_eq!(release_dead(&mut k.scheduler), 2);
    record(&mut trace, 1, 1);
    record(&mut trace, 1, 2);
    record(&mut trace, 1, 3);
    assert_eq!(trace.entries.len(), 8);
}

#[test]
fn the_timer_takes_the_cpu_from_tasks_that_never_yield() {
    let mut k = booted();
    reset_switch_log(&mut k.scheduler.log);
    for _ in 0..3 {
        spawn(&mut k, "spin", 0, 0);
    }
    assert!(preempt_if_needed(&mut k).is_none());
    yield_now(&mut k);
    let mut seen = vec![current_id(&k.scheduler).0];
    for _ in 0..8 {
        request_reschedule(&mut k.scheduler);
        let handoff = preempt_if_needed(&mut k).unwrap();
        assert_eq!(handoff.to, current_id(&k.scheduler).0);
        seen.push(handoff.to);
    }
    assert_eq!(seen, vec![1, 2, 3, 1, 2, 3, 1, 2, 3]);
    assert_eq!(k.scheduler.log.preemptions, 8);
    assert_eq!(k.scheduler.log.entries.len(), 9);
    assert!(k.scheduler.log.entries[1].preemptive);
    assert!(!k.scheduler.log.entries[0].preemptive);
}

#[test]
fn the_switch_log_counts_what_it_cannot_hold() {
    let mut k = booted();
    spawn(&mut k, "one", 0, 0);
    spawn(&mut k, "two", 0, 0);
    for _ in 0..40 {
        yield_now(&mut k);
    }
    assert_eq!(k.scheduler.log.entries.len(), 32);
    assert_eq!(k.scheduler.log.overflow, 8);
    tasks::note_switch(&mut k.scheduler.log, 1, 2, Reason::Preemptive);
    assert_eq!(k.scheduler.log.overflow, 9);
    assert_eq!(k.scheduler.log.preemptions, 1);
    reset_switch_log(&mut k.scheduler.log);
    assert_eq!(k.scheduler.log.overflow, 0);
}

#[test]
fn every_address_space_is_private() {
    let va = 0x1000_0000;
    let mut k = booted();
    let mut roots = Vec::new();
    for tag in 1..=3u64 {
        let space = AddressSpace::new(&mut k.frames, &mut k.memory);
        let frame = alloc_frame(&mut k.frames, &mut k.memory).unwrap();
        space.map(
            &mut k.frames,
            &mut k.memory,
            va,
            frame.addr(),
            FRAME_SIZE,
            Attributes::user_data(),
        );
        roots.push(space.root());
        spawn_in(&mut k, "iso", 0, tag, Some(space), Priority(Priority::NORMAL));
    }
    for (i, root) in roots.iter().enumerate() {
        let pa = paging::translate(&k.memory, *root, va).unwrap();
        k.memory.write_u64(pa, i as u64 + 1);
    }
    for (i, root) in roots.iter().enumerate() {
        let pa = paging::translate(&k.memory, *root, va).unwrap();
        assert_eq!(k.memory.read_u64(pa), i as u64 + 1);
        assert_eq!(space_root_of(&k.scheduler, TaskId(i + 1)), Some(*root));
    }
    // Switching to a task switches to its memory, and task 0 has none.
    let handoff = yield_now(&mut k).unwrap();
    assert_eq!(handoff.root, roots[0]);
    assert_eq!(space_root_of(&k.scheduler, TaskId(0)), None);
    for id in 1..=3 {
        tasks::block_current(&mut k);
        if id < 3 {
            assert_eq!(current_id(&k.scheduler), TaskId(id + 1));
        }
    }
    assert_eq!(current_id(&k.scheduler), TaskId(0));
    assert_ne!(empty_space_root(&k), roots[0]);
}

#[test]
fn high_runs_to_completion_before_low() {
    let mut k = booted();
    let mut t = Table::new();
    let mut order = Order::new();
    let tags = [0u8, 10, 11, 20, 21];
    spawn_at(&mut k, "low-a", 0, 10, Priority(Priority::LOW));
    spawn_at(&mut k, "low-b", 0, 11, Priority(Priority::LOW));
    spawn_at(&mut k, "high-a", 0, 20, Priority(Priority::HIGH));
    spawn_at(&mut k, "high-b", 0, 21, Priority(Priority::HIGH));
    let mut rounds = [0; 8];
    loop {
        let me = current_id(&k.scheduler).0;
        if me == 0 {
            if runnable_others(&k.scheduler) == 0 {
                break;
            }
        } else if rounds[me] == 3 {
            task_finished(&mut k, &mut t);
        } else {
            rounds[me] += 1;
            note_run(&mut order, tags[me]);
        }
        yield_now(&mut k);
    }
    assert_eq!(order.tags, vec![20, 21, 20, 21, 20, 21, 10, 11, 10, 11, 10, 11]);
    for _ in 0..9 {
        note_run(&mut order, 1);
    }
    assert_eq!(order.tags.len(), 16);
    reset_order(&mut order);
    assert!(order.tags.is_empty());
}

#[test]
fn a_blocked_task_is_skipped_and_waking_it_is_immediate() {
    let mut k = booted();
    let mut order = Order::new();
    let sleeper = spawn_at(&mut k, "sleeper", 0, 0, Priority(Priority::HIGH));
    let waker = spawn_at(&mut k, "waker", 0, 0, Priority(Priority::NORMAL));
    yield_now(&mut k);
    assert_eq!(current_id(&k.scheduler), sleeper);
    note_run(&mut order, 1);
    let handoff = block_current(&mut k).unwrap();
    assert_eq!((handoff.from, handoff.to), (sleeper.0, waker.0));
    note_run(&mut order, 2);
    assert!(is_blocked(&k.scheduler, sleeper));
    let handoff = unblock(&mut k, sleeper).unwrap();
    assert_eq!((handoff.from, handoff.to), (waker.0, sleeper.0));
    note_run(&mut order, 3);
    block_current(&mut k);
    assert_eq!(current_id(&k.scheduler), waker);
    note_run(&mut order, 4);
    assert_eq!(order.tags, vec![1, 2, 3, 4]);
}

#[test]
fn waking_somebody_less_important_costs_nothing() {
    let mut k = booted();
    let low = spawn_at(&mut k, "low", 0, 0, Priority(Priority::LOW));
    let high = spawn_at(&mut k, "high", 0, 0, Priority(Priority::HIGH));
    k.scheduler.current = low.0;
    block_current(&mut k);
    assert_eq!(current_id(&k.scheduler), high);
    assert!(unblock(&mut k, low).is_none());
    assert_eq!(state(&k, low), State::Runnable);
    assert_eq!(current_id(&k.scheduler), high);
    // Waking what is not blocked does nothing.
    assert!(unblock(&mut k, low).is_none());
    assert!(!unblock_deferred(&mut k.scheduler, low));
}

#[test]
fn a_wakeup_that_has_already_come_is_not_lost() {
    let mut k = booted();
    let task = spawn(&mut k, "task", 0, 0);
    yield_now(&mut k);
    tasks::mark_current_blocked(&mut k.scheduler);
    unblock_deferred(&mut k.scheduler, task);
    assert!(park(&mut k).is_none());
    assert_eq!(current_id(&k.scheduler), task);
    tasks::mark_current_blocked(&mut k.scheduler);
    assert_eq!(park(&mut k).unwrap().to, 0);
}

#[test]
fn the_machine_runs_when_every_task_is_asleep() {
    let mut k = booted();
    let napper = spawn_at(&mut k, "napper", 0, 0, Priority(Priority::HIGH));
    yield_now(&mut k);
    block_current(&mut k);
    assert_eq!(current_id(&k.scheduler), TaskId(0));
    for _ in 0..5 {
        request_reschedule(&mut k.scheduler);
        assert!(preempt_if_needed(&mut k).is_none());
        assert!(yield_now(&mut k).is_none());
    }
    assert!(unblock(&mut k, napper).is_some());
    assert_eq!(current_id(&k.scheduler), napper);
}

#[test]
fn lower_numbers_outrank() {
    assert!(Priority(0).outranks(Priority(1)));
    assert!(!Priority(1).outranks(Priority(1)));
    assert!(Priority(Priority::HIGH).outranks(Priority(Priority::NORMAL)));
    assert!(Priority(Priority::NORMAL).outranks(Priority(Priority::LOW)));
    assert!(Priority(Priority::LOW).outranks(Priority(Priority::IDLE)));
}

#[test]
fn a_new_task_looks_like_a_suspended_one() {
    let mut k = booted();
    let id = spawn_at(&mut k, "fresh", 0x1111, 0x2222, Priority(7));
    let task = k.scheduler.tasks[id.0].as_ref().unwrap();
    let stack = task.stack.addr();
    assert_eq!(task.sp, OFFSET + stack + 16384 - 96);
    assert_eq!(k.memory.read_u64(stack), STACK_CANARY);
    let frame = stack + 16384 - 96;
    assert_eq!(k.memory.read_u64(frame), 0x1111);
    assert_eq!(k.memory.read_u64(frame + 8), 0x2222);
    assert_eq!(k.memory.read_u64(frame + 80), 0);
    assert_eq!(k.memory.read_u64(frame + 88), TRAMPOLINE);
    assert_eq!(priority_of(&k.scheduler, id), Some(Priority(7)));
    assert_eq!(priority_of(&k.scheduler, TaskId(5)), None);
}

#[test]
fn a_new_stack_holds_nothing_of_whoever_had_it_before() {
    let mut k = booted();
    let id = spawn(&mut k, "scout", 0, 0);
    let stack = k.scheduler.tasks[id.0].as_ref().unwrap().stack.addr();
    let user = spawn_user(&mut k, "user scout", &PROGRAM);
    let user_stack = k.scheduler.tasks[user.0].as_ref().unwrap().stack.addr();

    let mut k = booted();
    for word in 0..2048 {
        k.memory.write_u64(stack + word * 8, u64::MAX);
        k.memory.write_u64(user_stack + word * 8, u64::MAX);
    }
    let id = spawn_at(&mut k, "fresh", 0x1111, 0x2222, Priority(7));
    let user = spawn_user(&mut k, "user", &PROGRAM);
    for (task, stack, entry, arg) in
        [(id, stack, 0x1111, 0x2222), (user, user_stack, USER_ENTRY, 0x40_0000)]
    {
        assert_eq!(k.scheduler.tasks[task.0].as_ref().unwrap().stack.addr(), stack);
        for word in 0..2048u64 {
            let expected = match word {
                0 => STACK_CANARY,
                2036 => entry,
                2037 => arg,
                2047 => TRAMPOLINE,
                _ => 0,
            };
            assert_eq!(k.memory.read_u64(stack + word * 8), expected);
        }
    }
}

#[test]
fn with_nobody_running_there_is_nobody_to_block() {
    let mut k = booted();
    let id = spawn(&mut k, "only", 0, 0);
    let log = k.scheduler.log.entries.len();
    k.scheduler.current = 5;
    assert!(block_current(&mut k).is_none());
    assert_eq!(k.scheduler.current, 5);
    assert!(k.scheduler.tasks[5].is_none());
    assert_eq!(state(&k, id), State::Runnable);
    assert_eq!(k.scheduler.log.entries.len(), log);
}

#[test]
fn only_exiting_gives_a_task_a_code() {
    let mut k = booted();
    let mut t = Table::new();
    let quits = spawn_user(&mut k, "quits", &PROGRAM);
    let breaks = spawn_user(&mut k, "breaks", &PROGRAM);
    assert_eq!(exit_code(&k.scheduler, quits), None);
    assert_eq!(exit_code(&k.scheduler, TaskId(6)), None);
    yield_now(&mut k);
    assert_eq!(current_id(&k.scheduler), quits);
    block_current(&mut k);
    assert_eq!(exit_code(&k.scheduler, quits), None);
    assert_eq!(current_id(&k.scheduler), breaks);
    fault_current(&mut k, &mut t, Fault { esr: 0, far: 0, elr: 0 });
    assert_eq!(exit_code(&k.scheduler, breaks), None);
    kill(&mut k.scheduler, breaks);
    assert_eq!(exit_code(&k.scheduler, breaks), None);
    unblock(&mut k, quits);
    yield_now(&mut k);
    assert_eq!(current_id(&k.scheduler), quits);
    exit_current(&mut k, &mut t, 41);
    assert_eq!(exit_code(&k.scheduler, quits), Some(41));
    yield_now(&mut k);
    yield_now(&mut k);
    assert!(is_dead(&k.scheduler, quits) && is_dead(&k.scheduler, breaks));
    assert_eq!(exit_code(&k.scheduler, quits), Some(41));
    assert_eq!(exit_code(&k.scheduler, breaks), None);
}

#[test]
fn an_overrun_stack_is_noticed() {
    let mut k = booted();
    let id = spawn(&mut k, "deep", 0, 0);
    assert!(canaries_intact(&k));
    let stack = k.scheduler.tasks[id.0].as_ref().unwrap().stack.addr();
    k.memory.write_u64(stack, 0);
    assert!(!canaries_intact(&k));
    // A reaped task's stack is somebody else's by now.
    let mut t = Table::new();
    yield_now(&mut k);
    task_finished(&mut k, &mut t);
    yield_now(&mut k);
    reap_zombies(&mut k);
    assert!(is_dead(&k.scheduler, id));
    assert!(canaries_intact(&k));
}

#[test]
fn a_user_task_finds_its_program_and_its_argument() {
    let mut k = booted();
    let id = spawn_user_program(&mut k, "user", &PROGRAM, 0xabcd, Priority(Priority::NORMAL));
    let root = space_root_of(&k.scheduler, id).unwrap();
    assert_eq!(paging::read_user(&k.memory, root, 0x40_0000, 12), PROGRAM.to_vec());
    assert_eq!(paging::read_user(&k.memory, root, 0x40_000c, 4084), vec![0; 4084]);
    assert_eq!(paging::read_user(&k.memory, root, 0x7f_f000, 4088), vec![0; 4088]);
    let arg = paging::read_user(&k.memory, root, 0x7f_fff8, 8);
    assert_eq!(arg, 0xabcdu64.to_le_bytes().to_vec());
    assert!(!paging::user_writable(&k.memory, root, 0x40_0000, 1));
    assert!(paging::user_writable(&k.memory, root, 0x7f_f000, 4096));
    assert!(!paging::user_readable(&k.memory, root, 0x7f_efff, 1));
    assert!(!paging::user_readable(&k.memory, root, 0x80_0000, 1));
    let task = k.scheduler.tasks[id.0].as_ref().unwrap();
    let frame = task.stack.addr() + 16384 - 96;
    assert_eq!(k.memory.read_u64(frame), USER_ENTRY);
    assert_eq!(k.memory.read_u64(frame + 8), 0x40_0000);
    assert_eq!(task.image.unwrap().arg, 0xabcd);
}

#[test]
fn a_task_takes_eleven_frames_and_gives_back_eleven() {
    let mut k = booted();
    let mut t = Table::new();
    let before_frames = free_frames(&k.frames);
    let before_slots = free_slots(&k.scheduler);
    let id = spawn_user(&mut k, "shortlived", &PROGRAM);
    assert_eq!(free_frames(&k.frames), before_frames - 11);
    assert_eq!(free_slots(&k.scheduler), before_slots - 1);
    yield_now(&mut k);
    assert_eq!(current_id(&k.scheduler), id);
    exit_current(&mut k, &mut t, ipc::EFAULT);
    assert!(finished(&k.scheduler, id));
    // Still standing on its stack.
    assert_eq!(free_frames(&k.frames), before_frames - 11);
    yield_now(&mut k);
    assert!(!is_dead(&k.scheduler, id));
    yield_now(&mut k);
    assert!(is_dead(&k.scheduler, id));
    // Collectable after reaping.
    assert_eq!(exit_code(&k.scheduler, id), Some(ipc::EFAULT));
    assert_eq!(release_dead(&mut k.scheduler), 1);
    assert_eq!(free_frames(&k.frames), before_frames);
    assert_eq!(free_slots(&k.scheduler), before_slots);
}

#[test]
fn a_faulted_task_keeps_its_wreckage_until_it_is_killed() {
    let mut k = booted();
    let mut t = Table::new();
    let before = free_frames(&k.frames);
    let id = spawn_faulting_user(&mut k, "faulter", &PROGRAM);
    yield_now(&mut k);
    let fault = Fault { esr: 0x9200_0046, far: 0, elr: 0x40_0004 };
    fault_current(&mut k, &mut t, fault);
    assert!(is_faulted(&k.scheduler, id));
    assert!(finished(&k.scheduler, id));
    assert!(!is_alive(&k.scheduler, id));
    assert_eq!(fault_of(&k.scheduler, id), Some(fault));
    assert!(fault.syndrome().is_abort());
    assert_eq!(fault.far, 0);
    yield_now(&mut k);
    yield_now(&mut k);
    assert!(is_faulted(&k.scheduler, id));
    assert_eq!(free_frames(&k.frames), before - 11);
    kill(&mut k.scheduler, id);
    yield_now(&mut k);
    assert!(is_dead(&k.scheduler, id));
    release_dead(&mut k.scheduler);
    assert_eq!(free_frames(&k.frames), before);
    // Killing what has not faulted does nothing.
    kill(&mut k.scheduler, TaskId(0));
    assert_eq!(state(&k, TaskId(0)), State::Runnable);
}

#[test]
fn a_restarted_task_is_the_same_task_with_clean_memory() {
    let mut k = booted();
    let mut t = Table::new();
    let victim = spawn_user_program(&mut k, "victim", &PROGRAM, 5, Priority(Priority::NORMAL));
    let supervisor =
        spawn_user_program(&mut k, "supervisor", &PROGRAM, 0, Priority(Priority::HIGH));
    set_supervisor(&mut k.scheduler, supervisor);
    assert!(is_supervisor(&k.scheduler, supervisor));
    assert!(!is_supervisor(&k.scheduler, victim));
    let frames = free_frames(&k.frames);

    // The supervisor waits for a fault.
    yield_now(&mut k);
    assert_eq!(current_id(&k.scheduler), supervisor);
    assert_eq!(wait_for_fault(&mut k.scheduler), None);
    park(&mut k);
    assert_eq!(current_id(&k.scheduler), victim);

    // The victim leaves something behind, and dies.
    let old_root = space_root_of(&k.scheduler, victim).unwrap();
    let pa = paging::translate(&k.memory, old_root, 0x7f_f100).unwrap();
    k.memory.write_u64(pa, 0x5ec2e7);
    let stack = k.scheduler.tasks[victim.0].as_ref().unwrap().stack;
    fault_current(&mut k, &mut t, Fault { esr: 0x9200_0046, far: 0xdead_0000, elr: 0x40_0000 });
    assert_eq!(state(&k, supervisor), State::Runnable);
    yield_now(&mut k);
    assert_eq!(current_id(&k.scheduler), supervisor);
    assert_eq!(wait_for_fault(&mut k.scheduler), Some(victim));

    assert!(!is_alive(&k.scheduler, victim));
    k.memory.write_u64(stack.addr() + 0x800, 0x1eff);
    assert!(restart(&mut k, &mut t, victim));
    assert!(is_alive(&k.scheduler, victim));
    assert_eq!(state(&k, victim), State::Runnable);
    // The kernel stack is wound back, not wiped.
    assert_eq!(k.memory.read_u64(stack.addr() + 0x800), 0x1eff);
    assert_eq!(k.memory.read_u64(stack.addr()), STACK_CANARY);
    assert_eq!(k.memory.read_u64(stack.addr() + 16384 - 96), USER_ENTRY);
    assert_eq!(fault_of(&k.scheduler, victim), None);
    let root = space_root_of(&k.scheduler, victim).unwrap();
    assert_eq!(paging::read_user(&k.memory, root, 0x40_0000, 12), PROGRAM.to_vec());
    assert_eq!(paging::read_user(&k.memory, root, 0x7f_f000, 4088), vec![0; 4088]);
    assert_eq!(
        paging::read_user(&k.memory, root, 0x7f_fff8, 8),
        5u64.to_le_bytes().to_vec()
    );
    let task = k.scheduler.tasks[victim.0].as_ref().unwrap();
    assert_eq!(task.stack, stack);
    assert_eq!(task.name, "victim");
    assert_eq!(free_frames(&k.frames), frames);
    // There is nothing left to restart.
    assert!(!restart(&mut k, &mut t, victim));
    assert!(!restart(&mut k, &mut t, TaskId(0)));
    assert!(!restart(&mut k, &mut t, TaskId(7)));
}

#[test]
fn two_faults_are_two_tasks_in_the_table() {
    let mut k = booted();
    let mut t = Table::new();
    let one = spawn_user(&mut k, "one", &PROGRAM);
    let two = spawn_user(&mut k, "two", &PROGRAM);
    for _ in 0..2 {
        yield_now(&mut k);
        fault_current(&mut k, &mut t, Fault { esr: 0, far: 0, elr: 0 });
    }
    yield_now(&mut k);
    assert_eq!(wait_for_fault(&mut k.scheduler), Some(one));
    kill(&mut k.scheduler, one);
    assert_eq!(wait_for_fault(&mut k.scheduler), Some(two));
}

#[test]
fn the_kernel_spawns_programs_for_what_they_do() {
    let mut k = booted();
    let mut n = Notifications::new();
    let server = spawn_ipc_server(&mut k, "server", &PROGRAM, Priority(Priority::HIGH));
    let client =
        spawn_ipc_client(&mut k, "client", &PROGRAM, server, Priority(Priority::NORMAL));
    let heartbeat = spawn_heartbeat(&mut k, &mut n, &PROGRAM);
    let arg = |k: &Kernel, id: TaskId| k.scheduler.tasks[id.0].as_ref().unwrap().image.unwrap().arg;
    assert_eq!(arg(&k, server), 0);
    assert_eq!(arg(&k, client), server.0 as u64);
    assert_eq!(arg(&k, heartbeat), 0);
    let route = n.routes[0].unwrap();
    assert_eq!((route.intid, route.task, route.bits), (TIMER_INTID, heartbeat, 1));
    assert_eq!(priority_of(&k.scheduler, server), Some(Priority(Priority::HIGH)));
}

#[test]
fn exit_codes_say_which_check_failed() {
    assert_eq!(client_failure(1), "the server reported the message arrived wrong");
    assert_eq!(client_failure(2), "the reply was the wrong length");
    assert_eq!(client_failure(3), "the reply bytes did not survive the copy");
    assert_eq!(client_failure(4), "sending to a dead task did not return EDEAD");
    assert_eq!(client_failure(5), "unknown failure");
    assert_eq!(lease_failures(1), "reading a lease it was given failed");
    assert_eq!(lease_failures(2), "reading a lease produced the wrong bytes");
    assert_eq!(lease_failures(4), "writing a lease it was given failed");
    assert_eq!(lease_failures(8), "a borrow past the end of a lease was allowed");
    assert_eq!(lease_failures(16), "writing a read only lease was allowed");
    assert_eq!(lease_failures(32), "a lease index nobody lent it was accepted");
    assert_eq!(lease_failures(64), "a borrow after the reply still worked");
    assert_eq!(lease_failures(3), "several checks failed at once");
    assert_eq!(supervisor_failures(1), "the fault reported was not the task being watched");
    assert_eq!(
        supervisor_failures(2),
        "the first fault was not at the address the victim aimed at"
    );
    assert_eq!(supervisor_failures(4), "restart was refused");
    assert_eq!(
        supervisor_failures(8),
        "the restarted task came back with a different identity"
    );
    assert_eq!(
        supervisor_failures(16),
        "the restarted task found its old memory still there"
    );
    assert_eq!(supervisor_failures(3), "several checks failed at once");
}

#[test]
fn a_restart_loses_no_frames_however_often() {
    let mut k = booted();
    let mut t = Table::new();
    let id = spawn_user(&mut k, "fragile", &PROGRAM);
    let frames = free_frames(&k.frames);
    for _ in 0..5 {
        k.scheduler.current = id.0;
        fault_current(&mut k, &mut t, Fault { esr: 0, far: 0, elr: 0 });
        k.scheduler.current = 0;
        assert!(restart(&mut k, &mut t, id));
        assert_eq!(free_frames(&k.frames), frames);
    }
    // It takes back what it gave up, so there need be nothing to spare.
    while alloc_frame(&mut k.frames, &mut k.memory).is_some() {}
    k.scheduler.current = id.0;
    fault_current(&mut k, &mut t, Fault { esr: 0, far: 0, elr: 0 });
    k.scheduler.current = 0;
    assert!(restart(&mut k, &mut t, id));
    assert_eq!(free_frames(&k.frames), 0);
}

#[test]
fn a_fault_waits_until_it_is_dealt_with() {
    let mut k = booted();
    let mut t = Table::new();
    let broken = spawn_user(&mut k, "broken", &PROGRAM);
    let other = spawn_user(&mut k, "other", &PROGRAM);
    k.scheduler.current = broken.0;
    fault_current(&mut k, &mut t, Fault { esr: 1, far: 2, elr: 3 });
    yield_now(&mut k);
    assert_eq!(current_id(&k.scheduler), other);
    exit_current(&mut k, &mut t, 0);
    yield_now(&mut k);
    assert!(unblock(&mut k, broken).is_none());
    reap_zombies(&mut k);
    assert_eq!(release_dead(&mut k.scheduler), 1);
    assert!(is_faulted(&k.scheduler, broken));
    assert_eq!(fault_of(&k.scheduler, broken), Some(Fault { esr: 1, far: 2, elr: 3 }));
}

#[test]
fn room_is_a_slot_a_stack_and_an_address_space() {
    let mut k = booted();
    assert!(tasks::room(&k) && tasks::user_room(&k));
    for _ in 0..6 {
        spawn(&mut k, "filler", 0, 0);
        assert!(tasks::room(&k) && tasks::user_room(&k));
    }
    spawn(&mut k, "last", 0, 0);
    assert!(!tasks::room(&k) && !tasks::user_room(&k));
    // Eleven frames are enough for a user task, and ten are not.
    let mut k = booted();
    while free_frames(&k.frames) > 11 {
        alloc_frame(&mut k.frames, &mut k.memory).unwrap();
    }
    assert!(tasks::room(&k) && tasks::user_room(&k));
    alloc_frame(&mut k.frames, &mut k.memory).unwrap();
    assert!(tasks::room(&k) && !tasks::user_room(&k));
    while free_frames(&k.frames) > 3 {
        alloc_frame(&mut k.frames, &mut k.memory).unwrap();
    }
    assert!(!tasks::room(&k));
}
