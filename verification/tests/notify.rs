use the_rack::notify::{arm, clear, disarm, on_irq, post, route, take, Notifications};
use the_rack::tasks::{Scheduler, TaskId};

#[test]
fn posts_collapse_into_one_bit() {
    let mut n = Notifications::new();
    let mut s = Scheduler::new();
    post(&mut n, &mut s, TaskId(2), 0b0100);
    post(&mut n, &mut s, TaskId(2), 0b0100);
    post(&mut n, &mut s, TaskId(2), 0b0001);
    assert_eq!(n.posted[2], 0b0101);
    assert_eq!(take(&mut n, TaskId(2), 0b0110), 0b0100);
    assert_eq!(take(&mut n, TaskId(2), 0b0110), 0);
    assert_eq!(take(&mut n, TaskId(2), u32::MAX), 0b0001);
    // There is nobody there to tell.
    post(&mut n, &mut s, TaskId(8), 1);
    assert_eq!(n.posted, vec![0; 8]);
}

#[test]
fn an_interrupt_goes_to_whoever_owns_it() {
    let mut n = Notifications::new();
    let mut s = Scheduler::new();
    route(&mut n, 33, TaskId(1), 0b0001);
    route(&mut n, 34, TaskId(2), 0b0010);
    route(&mut n, 33, TaskId(3), 0b0100);
    assert!(on_irq(&mut n, &mut s, 33));
    assert!(on_irq(&mut n, &mut s, 34));
    assert!(!on_irq(&mut n, &mut s, 35));
    assert_eq!(n.posted, vec![0, 0b0001, 0b0010, 0, 0, 0, 0, 0]);
}

#[test]
fn a_slot_that_is_reused_remembers_nothing() {
    let mut n = Notifications::new();
    let mut s = Scheduler::new();
    arm(&mut n, TaskId(4), 0b1000);
    assert_eq!(n.wanted[4], 0b1000);
    disarm(&mut n, TaskId(4));
    assert_eq!(n.wanted[4], 0);
    arm(&mut n, TaskId(4), 1);
    post(&mut n, &mut s, TaskId(4), 0b0010);
    clear(&mut n, TaskId(4));
    assert_eq!((n.posted[4], n.wanted[4]), (0, 0));
}
