use fanctl::retry::IoError;
use fanctl::retry::RetryState;

#[test]
fn fresh_state_has_full_budget() {
    let state = RetryState::new(8);
    assert_eq!(state.retry_count, 0);
    assert_eq!(state.retry_max, 8);
}

#[test]
fn recovers_within_budget() {
    // The backing file vanishes for three reopen attempts and then
    // comes back: no attempt gives up, and the successful operation
    // that follows clears the counter entirely.
    let mut state = RetryState::new(8);
    state.begin_attempt();
    assert!(!state.reopen_failed());
    assert!(!state.reopen_failed());
    assert!(!state.reopen_failed());
    state.operation_succeeded();
    assert_eq!(state.retry_count, 0);
}

#[test]
fn budget_allows_exactly_max_failures() {
    let mut state = RetryState::new(3);
    assert!(!state.reopen_failed());
    assert!(!state.reopen_failed());
    assert!(!state.reopen_failed());
    assert!(state.reopen_failed());
}

#[test]
fn exhausted_budget_surfaces_error() {
    // More consecutive failures than the configured maximum: the
    // decision is to give up and surface the underlying error.
    let mut state = RetryState::new(2);
    assert!(!state.reopen_failed());
    assert!(!state.reopen_failed());
    assert!(state.reopen_failed());
    assert!(state.reopen_failed());
}

#[test]
fn zero_budget_gives_up_immediately() {
    let mut state = RetryState::new(0);
    assert!(state.reopen_failed());
}

#[test]
fn attempts_consume_budget_without_success() {
    // The counter is shared across operations: attempts bump it, and
    // only a success resets it.
    let mut state = RetryState::new(2);
    state.begin_attempt();
    state.begin_attempt();
    assert!(state.reopen_failed());
}

#[test]
fn success_restores_full_budget() {
    let mut state = RetryState::new(1);
    assert!(!state.reopen_failed());
    state.operation_succeeded();
    assert!(!state.reopen_failed());
    assert!(state.reopen_failed());
}

#[test]
fn io_error_carries_inner_error() {
    let err = IoError::new("device vanished".to_string());
    assert_eq!(err.into_inner(), "device vanished");
}
