use rusty_towers::timer::{ConfigError, Timer, TimerMode};

const SECOND: u64 = 1_000_000_000;

fn ms(n: u64) -> u64 {
    n * 1_000_000
}

#[test]
fn zero_duration_is_rejected() {
    assert_eq!(Timer::new(0, TimerMode::Once), Err(ConfigError::NonPositiveDuration));
    assert_eq!(Timer::new(0, TimerMode::Repeating), Err(ConfigError::NonPositiveDuration));
}

#[test]
fn new_timer_starts_empty() {
    let t = Timer::new(SECOND, TimerMode::Repeating).unwrap();
    assert_eq!(t.elapsed, 0);
    assert_eq!(t.duration, SECOND);
    assert!(!t.just_finished());
    assert!(!t.finished());
}

#[test]
fn zero_delta_never_completes() {
    let mut t = Timer::new(SECOND, TimerMode::Repeating).unwrap();
    for _ in 0..10 {
        t.tick(0);
        assert!(!t.just_finished());
    }
    let mut o = Timer::new(SECOND, TimerMode::Once).unwrap();
    o.tick(0);
    assert!(!o.just_finished());
}

#[test]
fn repeating_irregular_ticks_complete_once_per_period() {
    let mut t = Timer::new(SECOND, TimerMode::Repeating).unwrap();
    let deltas = [ms(300), ms(700), ms(500), ms(250), ms(250), ms(1000), ms(999), ms(1)];
    let mut count = 0;
    for d in deltas {
        t.tick(d);
        if t.just_finished() {
            count += 1;
        }
    }
    assert_eq!(count, 4);
    assert_eq!(t.elapsed, 0);
}

#[test]
fn repeating_carries_overshoot() {
    let mut t = Timer::new(SECOND, TimerMode::Repeating).unwrap();
    t.tick(ms(700));
    t.tick(ms(700));
    assert!(t.just_finished());
    assert_eq!(t.elapsed, ms(400));
    t.tick(ms(500));
    assert!(!t.just_finished());
    assert_eq!(t.elapsed, ms(900));
    t.tick(ms(100));
    assert!(t.just_finished());
    assert_eq!(t.elapsed, 0);
}

#[test]
fn repeating_large_overshoot_signals_once() {
    let mut t = Timer::new(SECOND, TimerMode::Repeating).unwrap();
    t.tick(ms(3500));
    assert!(t.just_finished());
    assert_eq!(t.elapsed, ms(500));
    t.tick(ms(100));
    assert!(!t.just_finished());
}

#[test]
fn once_completes_exactly_once() {
    let mut t = Timer::new(ms(500), TimerMode::Once).unwrap();
    let mut count = 0;
    for _ in 0..20 {
        t.tick(ms(100));
        if t.just_finished() {
            count += 1;
        }
    }
    assert_eq!(count, 1);
    assert!(t.finished());
    assert_eq!(t.elapsed, ms(500));
    t.tick(SECOND);
    assert!(!t.just_finished());
}

#[test]
fn once_clamps_at_duration() {
    let mut t = Timer::new(ms(500), TimerMode::Once).unwrap();
    t.tick(ms(300));
    assert!(!t.just_finished());
    t.tick(ms(300));
    assert!(t.just_finished());
    assert_eq!(t.elapsed, ms(500));
}
