//! The circuit breaker around redaction.

use archiv_agent::breaker::CircuitBreaker;
use std::time::{Duration, Instant};

#[test]
fn trips_after_threshold_within_window() {
    let mut b = CircuitBreaker::new(3, Duration::from_secs(10), Duration::from_secs(30));
    let t0 = Instant::now();
    assert!(b.allow_at(t0));
    assert!(!b.record_fault_at(t0));
    assert!(!b.record_fault_at(t0));
    assert!(b.record_fault_at(t0), "3rd fault trips the breaker");
    assert!(!b.allow_at(t0), "open: the stage is skipped");
}

#[test]
fn faults_outside_window_do_not_accumulate() {
    let mut b = CircuitBreaker::new(3, Duration::from_secs(10), Duration::from_secs(30));
    let t0 = Instant::now();
    b.record_fault_at(t0);
    b.record_fault_at(t0);
    // 11 s later both are out of the window, so one fault is harmless.
    let t1 = t0 + Duration::from_secs(11);
    assert!(!b.record_fault_at(t1));
    assert!(b.allow_at(t1), "still closed");
}

#[test]
fn closes_after_cooldown_and_can_retrip() {
    let mut b = CircuitBreaker::new(2, Duration::from_secs(10), Duration::from_secs(30));
    let t0 = Instant::now();
    b.record_fault_at(t0);
    assert!(b.record_fault_at(t0), "trips");
    assert!(!b.allow_at(t0), "open");

    let t1 = t0 + Duration::from_secs(31); // past the cooldown
    assert!(b.allow_at(t1), "a trial is allowed");

    b.record_fault_at(t1);
    assert!(b.record_fault_at(t1), "trips again");
    assert!(!b.allow_at(t1));
}

#[test]
fn opening_is_told_once() {
    let mut b = CircuitBreaker::new(1, Duration::from_secs(10), Duration::from_secs(30));
    let t0 = Instant::now();
    assert!(b.record_fault_at(t0));
    assert!(!b.record_fault_at(t0), "already open");
}

#[test]
fn cooldown_is_counted_from_the_opening() {
    let mut b = CircuitBreaker::with_defaults();
    let t0 = Instant::now();
    for _ in 0..4 {
        assert!(!b.record_fault_at(t0));
    }
    assert!(b.record_fault_at(t0), "five faults within ten seconds");
    assert!(!b.allow_at(t0 + Duration::from_secs(29)));
    assert!(b.allow_at(t0 + Duration::from_secs(30)));
}

#[test]
fn the_window_rolls() {
    let mut b = CircuitBreaker::new(3, Duration::from_secs(10), Duration::from_secs(30));
    let t0 = Instant::now();
    assert!(!b.record_fault_at(t0));
    assert!(!b.record_fault_at(t0 + Duration::from_secs(9)));
    // The first fault is out of reach by now.
    assert!(!b.record_fault_at(t0 + Duration::from_secs(11)));
    assert!(b.allow_at(t0 + Duration::from_secs(11)));
    // Three faults within three seconds, whenever the first of all came.
    assert!(b.record_fault_at(t0 + Duration::from_secs(12)));
    assert!(!b.allow_at(t0 + Duration::from_secs(12)));
}

#[test]
fn faults_while_open_are_forgotten_at_the_cooldown() {
    let mut b = CircuitBreaker::new(2, Duration::from_secs(60), Duration::from_secs(30));
    let t0 = Instant::now();
    b.record_fault_at(t0);
    assert!(b.record_fault_at(t0));
    let t1 = t0 + Duration::from_secs(30);
    assert!(b.allow_at(t1));
    assert!(!b.record_fault_at(t1), "counting starts anew");
    assert!(b.record_fault_at(t1));
}
