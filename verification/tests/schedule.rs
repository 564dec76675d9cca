use leaderboard::schedule::{Scheduler, BATCH_SIZE, TICKS_PER_REPORT, TICK_SECONDS, TOP_SHOWN};

#[test]
fn cadence_of_the_service() {
    assert_eq!(TICK_SECONDS, 60);
    assert_eq!(TICKS_PER_REPORT, 60);
    assert_eq!(BATCH_SIZE, 30);
    assert_eq!(TOP_SHOWN, 100);
}

#[test]
fn no_scheduler_without_a_period() {
    assert!(Scheduler::new(0).is_none());
    assert!(Scheduler::new(1).is_some());
}

#[test]
fn report_on_every_third_tick() {
    let mut s = Scheduler::new(3).unwrap();
    let due: Vec<bool> = (0..7).map(|_| s.tick()).collect();
    assert_eq!(due, vec![false, false, true, false, false, true, false]);
}

#[test]
fn report_on_every_tick() {
    let mut s = Scheduler::new(1).unwrap();
    assert!(s.tick());
    assert!(s.tick());
}

#[test]
fn hourly_report() {
    let mut s = Scheduler::new(TICKS_PER_REPORT).unwrap();
    for round in 0..3 {
        for t in 1..=60 {
            assert_eq!(s.tick(), t == 60, "round {} tick {}", round, t);
        }
    }
}

#[test]
fn longest_period_does_not_wrap() {
    let mut s = Scheduler::new(u32::MAX).unwrap();
    assert!(!s.tick());
    assert!(!s.tick());
}
