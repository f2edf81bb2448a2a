use fixbolt_engine::block::{poll_timeout_ms, timeout_in_force, DEFAULT_TIMEOUT_MS, MIN_TIMEOUT_MS};
use fixbolt_engine::poll::{events_for, failure, readiness, PollError, Ready};

#[test]
fn a_descriptor_the_kernel_does_not_know_is_never_readiness() {
    assert_eq!(readiness(&[0, 1, 0x20]), Err(PollError::BadSource));
    assert_eq!(readiness(&[0x21]), Err(PollError::BadSource));
}

#[test]
fn readiness_counts_the_sources_that_said_anything() {
    assert_eq!(readiness(&[0, 1, 4, 0x10, 0]), Ok(Ready { count: 3 }));
    assert_eq!(readiness(&[]), Ok(Ready { count: 0 }));
}

#[test]
fn an_interrupted_wait_is_not_a_failure() {
    assert_eq!(failure(4), PollError::Interrupted);
    assert_eq!(failure(9), PollError::Failed(9));
    assert_eq!(events_for(false), 1);
    assert_eq!(events_for(true), 5);
}

#[test]
fn a_timeout_below_the_floor_is_raised_and_a_long_one_saturates() {
    assert_eq!(timeout_in_force(0), MIN_TIMEOUT_MS);
    assert_eq!(timeout_in_force(DEFAULT_TIMEOUT_MS), 100);
    assert_eq!(poll_timeout_ms(42), 42);
    assert_eq!(poll_timeout_ms(u128::MAX), i32::MAX);
}
