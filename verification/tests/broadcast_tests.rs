use btc_multisig::broadcast::backoff;
use btc_multisig::{next_step, NetworkError, NextStep, SendResult};

#[test]
fn accepted_ends_the_submission() {
    for attempt in 1..=5 {
        assert_eq!(next_step(attempt, SendResult::Accepted), NextStep::Done);
    }
}

#[test]
fn transient_failures_are_retried_with_doubling_waits() {
    let transient = SendResult::Failed(NetworkError::Transient);
    assert_eq!(next_step(1, transient), NextStep::Retry { wait_ms: 500 });
    assert_eq!(next_step(2, transient), NextStep::Retry { wait_ms: 1000 });
    assert_eq!(next_step(3, transient), NextStep::Retry { wait_ms: 2000 });
    assert_eq!(next_step(4, transient), NextStep::Retry { wait_ms: 4000 });
}

#[test]
fn the_fifth_transient_failure_is_final() {
    let transient = SendResult::Failed(NetworkError::Transient);
    assert_eq!(next_step(5, transient), NextStep::Failed(NetworkError::Transient));
    assert_eq!(next_step(6, transient), NextStep::Failed(NetworkError::Transient));
}

#[test]
fn permanent_failures_are_not_retried() {
    let permanent = SendResult::Failed(NetworkError::Permanent);
    assert_eq!(next_step(1, permanent), NextStep::Failed(NetworkError::Permanent));
    assert_eq!(next_step(3, permanent), NextStep::Failed(NetworkError::Permanent));
}

#[test]
fn cancelling_ends_the_submission() {
    assert_eq!(next_step(2, SendResult::Cancelled), NextStep::Cancelled);
}

#[test]
fn waits_are_capped_at_eight_seconds() {
    assert_eq!(backoff(0), 500);
    assert_eq!(backoff(1), 500);
    assert_eq!(backoff(5), 8000);
    assert_eq!(backoff(6), 8000);
    assert_eq!(backoff(1000), 8000);
}
