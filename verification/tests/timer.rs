use the_rack::gic;
use the_rack::timer::{arm_first, arm_next, init, interval, on_tick, ticks, Timer, TIMER_INTID};

#[test]
fn the_interval_is_a_hundredth_of_a_second() {
    assert_eq!(interval(62_500_000), 625_000);
    assert_eq!(interval(199), 1);
}

#[test]
fn the_first_deadline_is_an_interval_away() {
    assert_eq!(arm_first(1000, 25), 1025);
}

#[test]
fn the_next_deadline_is_anchored_to_the_previous_one() {
    // Handled late, but within an interval: the latency does not add up.
    assert_eq!(arm_next(1000, 1090, 100), 1100);
    // Exactly one interval late: the next deadline has passed already.
    assert_eq!(arm_next(1000, 1100, 100), 1200);
    // Several missed: skipped rather than caught up with.
    assert_eq!(arm_next(1000, 5000, 100), 5100);
}

#[test]
fn ticks_do_not_drift() {
    let mut t = Timer::new(10_000);
    let start = init(&mut t, 500);
    assert_eq!(start.deadline, 600);
    assert_eq!(start.control, 1);
    assert_eq!(start.enable, gic::enable(TIMER_INTID));
    for n in 0..250u64 {
        // Always ninety late.
        let tick = on_tick(&mut t, 600 + n * 100 + 90);
        assert_eq!(tick.deadline, 700 + n * 100);
    }
    assert_eq!(ticks(&t), 250);
}

#[test]
fn every_hundredth_tick_reports_a_second() {
    let mut t = Timer::new(100);
    init(&mut t, 0);
    for n in 1..=300u64 {
        let tick = on_tick(&mut t, n);
        if n % 100 == 0 {
            assert_eq!(tick.uptime, Some(n / 100));
        } else {
            assert_eq!(tick.uptime, None);
        }
    }
}
