use webhook_bridge::error::ConfigError;
use webhook_bridge::outcome::{Outcome, Reason, TransportFailure};
use webhook_bridge::retry::{full_jitter, RetryDecision, RetryPolicy};

const RETRIABLE: Outcome = Outcome::Retriable(Reason::Status(503));
const PERMANENT: Outcome = Outcome::Permanent(Reason::Status(400));

#[test]
fn the_default_policy_has_the_documented_parameters() {
    let policy = RetryPolicy::default();
    assert_eq!(policy.base_ms(), 200);
    assert_eq!(policy.factor(), 2);
    assert_eq!(policy.cap_ms(), 30_000);
    assert_eq!(policy.max_attempts(), 8);
    assert_eq!(RetryPolicy::new(200, 2, 30_000, 8), Ok(policy));
}

#[test]
fn a_policy_without_attempts_is_refused() {
    assert_eq!(RetryPolicy::new(200, 2, 30_000, 0), Err(ConfigError::ZeroMaxAttempts));
    assert!(RetryPolicy::new(0, 0, 0, 1).is_ok());
}

#[test]
fn the_ceiling_doubles_up_to_the_cap() {
    let policy = RetryPolicy::default();
    let expected = [200u64, 400, 800, 1_600, 3_200, 6_400, 12_800, 25_600, 30_000, 30_000];
    for (i, ceiling) in expected.iter().enumerate() {
        assert_eq!(policy.backoff_ceiling(i as u32 + 1), *ceiling);
    }
    assert_eq!(policy.backoff_ceiling(200), 30_000);
}

#[test]
fn the_ceiling_follows_the_configured_parameters() {
    let policy = RetryPolicy::new(50, 3, 1_000, 5).unwrap();
    assert_eq!(policy.backoff_ceiling(1), 50);
    assert_eq!(policy.backoff_ceiling(2), 150);
    assert_eq!(policy.backoff_ceiling(3), 450);
    assert_eq!(policy.backoff_ceiling(4), 1_000);
    let constant = RetryPolicy::new(70, 1, 1_000, 5).unwrap();
    assert_eq!(constant.backoff_ceiling(1), 70);
    assert_eq!(constant.backoff_ceiling(9), 70);
    let above_cap = RetryPolicy::new(5_000, 2, 1_000, 5).unwrap();
    assert_eq!(above_cap.backoff_ceiling(1), 1_000);
    let zero_factor = RetryPolicy::new(300, 0, 1_000, 5).unwrap();
    assert_eq!(zero_factor.backoff_ceiling(1), 300);
    assert_eq!(zero_factor.backoff_ceiling(2), 0);
    let huge = RetryPolicy::new(u64::MAX, u64::MAX, u64::MAX, 5).unwrap();
    assert_eq!(huge.backoff_ceiling(1), u64::MAX);
    assert_eq!(huge.backoff_ceiling(3), u64::MAX);
}

#[test]
fn a_success_needs_no_decision() {
    let policy = RetryPolicy::default();
    assert_eq!(policy.next(1, Outcome::Success), None);
    assert_eq!(policy.next(8, Outcome::Success), None);
}

#[test]
fn a_permanent_failure_is_given_up_at_once() {
    let policy = RetryPolicy::default();
    assert_eq!(policy.next(1, PERMANENT), Some(RetryDecision::GiveUp));
    assert_eq!(policy.next(3, PERMANENT), Some(RetryDecision::GiveUp));
}

#[test]
fn a_retriable_failure_waits_while_attempts_are_left() {
    let policy = RetryPolicy::default();
    assert_eq!(policy.next(1, RETRIABLE), Some(RetryDecision::Delay(200)));
    assert_eq!(policy.next(2, RETRIABLE), Some(RetryDecision::Delay(400)));
    assert_eq!(policy.next(7, RETRIABLE), Some(RetryDecision::Delay(12_800)));
    assert_eq!(policy.next(8, RETRIABLE), Some(RetryDecision::GiveUp));
    assert_eq!(policy.next(9, RETRIABLE), Some(RetryDecision::GiveUp));
    let timeout = Outcome::Retriable(Reason::Transport(TransportFailure::Timeout));
    assert_eq!(policy.next(1, timeout), Some(RetryDecision::Delay(200)));
    let once = RetryPolicy::new(200, 2, 30_000, 1).unwrap();
    assert_eq!(once.next(1, RETRIABLE), Some(RetryDecision::GiveUp));
}

#[test]
fn full_jitter_picks_a_wait_up_to_the_ceiling() {
    assert_eq!(full_jitter(200, 0), 0);
    assert_eq!(full_jitter(200, 200), 200);
    assert_eq!(full_jitter(200, 201), 0);
    assert_eq!(full_jitter(200, 1_000_003), 1_000_003 % 201);
    assert_eq!(full_jitter(0, 12_345), 0);
    assert_eq!(full_jitter(u64::MAX, 12_345), 12_345);
    assert_eq!(full_jitter(u64::MAX, u64::MAX), u64::MAX);
    for sample in 0..2_000u64 {
        assert!(full_jitter(400, sample * 7_919) <= 400);
    }
}
