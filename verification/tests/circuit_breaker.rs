use distributed_cache::router::circuit_breaker::CircuitBreaker;
use std::time::Duration;

#[test]
fn new_breaker_is_closed() {
    let mut cb = CircuitBreaker::new(3, Duration::from_secs(30));
    assert_eq!(cb.state_str(), "closed");
    assert!(!cb.is_open());
}

#[test]
fn opens_after_threshold_consecutive_failures() {
    let mut cb = CircuitBreaker::new(3, Duration::from_secs(30));
    cb.record_failure();
    cb.record_failure();
    assert_eq!(cb.state_str(), "closed");
    cb.record_failure();
    assert_eq!(cb.state_str(), "open");
    assert!(cb.is_open_with(false));
}

#[test]
fn success_resets_the_failure_count() {
    let mut cb = CircuitBreaker::new(3, Duration::from_secs(30));
    cb.record_failure();
    cb.record_failure();
    cb.record_success();
    cb.record_failure();
    cb.record_failure();
    assert_eq!(cb.state_str(), "closed");
    cb.record_failure();
    assert_eq!(cb.state_str(), "open");
}

#[test]
fn open_breaker_turns_half_open_after_timeout() {
    let mut cb = CircuitBreaker::new(1, Duration::from_secs(30));
    cb.record_failure();
    assert!(cb.is_open_with(false));
    assert_eq!(cb.state_str(), "open");
    assert!(!cb.is_open_with(true));
    assert_eq!(cb.state_str(), "half-open");
}

#[test]
fn half_open_closes_after_three_successes() {
    let mut cb = CircuitBreaker::new(1, Duration::from_secs(30));
    cb.record_failure();
    assert!(!cb.is_open_with(true));
    cb.record_success();
    cb.record_success();
    assert_eq!(cb.state_str(), "half-open");
    cb.record_success();
    assert_eq!(cb.state_str(), "closed");
    assert!(!cb.is_open());
}

#[test]
fn failure_in_half_open_reopens() {
    let mut cb = CircuitBreaker::new(2, Duration::from_secs(30));
    cb.record_failure();
    cb.record_failure();
    assert!(!cb.is_open_with(true));
    cb.record_failure();
    assert_eq!(cb.state_str(), "open");
}

#[test]
fn zero_timeout_admits_at_once_on_the_clock() {
    let mut cb = CircuitBreaker::new(1, Duration::from_secs(0));
    cb.record_failure();
    assert!(!cb.is_open());
    assert_eq!(cb.state_str(), "half-open");
}

#[test]
fn long_timeout_keeps_rejecting_on_the_clock() {
    let mut cb = CircuitBreaker::new(1, Duration::from_secs(3600));
    cb.record_failure();
    assert!(cb.is_open());
    assert_eq!(cb.state_str(), "open");
}

#[test]
fn threshold_zero_opens_on_first_failure() {
    let mut cb = CircuitBreaker::new(0, Duration::from_secs(30));
    cb.record_failure();
    assert_eq!(cb.state_str(), "open");
}

#[test]
fn reopening_forgets_the_successes_counted() {
    let mut cb = CircuitBreaker::new(1, Duration::from_secs(0));
    cb.record_failure();
    assert!(!cb.is_open());
    cb.record_success();
    cb.record_success();
    cb.record_failure();
    assert_eq!(cb.state_str(), "open");
    assert!(!cb.is_open());
    assert_eq!(cb.state_str(), "half-open");
    cb.record_success();
    assert_eq!(cb.state_str(), "half-open");
    cb.record_success();
    cb.record_success();
    assert_eq!(cb.state_str(), "closed");
}
