use portprobe::probe::{AttemptOutcome, ProbeMachine};
use portprobe::scan::Status;

#[test]
fn immediate_success_is_open_regardless_of_budget() {
    for retries in [1usize, 2, 5, 100] {
        let mut m = ProbeMachine::new(retries);
        assert!(m.wants_attempt());
        m.record(AttemptOutcome::Connected);
        assert!(!m.wants_attempt());
        assert!(matches!(m.status(), Status::Open));
        assert_eq!(m.attempts, 1);
    }
}

#[test]
fn all_timeouts_is_timed_out() {
    let mut m = ProbeMachine::new(3);
    while m.wants_attempt() {
        m.record(AttemptOutcome::TimedOut);
    }
    assert_eq!(m.attempts, 3);
    assert!(matches!(m.status(), Status::TimedOut));
}

#[test]
fn all_refusals_is_closed() {
    let mut m = ProbeMachine::new(3);
    while m.wants_attempt() {
        m.record(AttemptOutcome::Refused);
    }
    assert_eq!(m.attempts, 3);
    assert!(matches!(m.status(), Status::Closed));
}

#[test]
fn one_retry_means_exactly_one_attempt() {
    let mut m = ProbeMachine::new(1);
    assert!(m.wants_attempt());
    m.record(AttemptOutcome::Refused);
    assert!(!m.wants_attempt());
    assert_eq!(m.attempts, 1);
    assert!(matches!(m.status(), Status::Closed));
}

#[test]
fn late_success_wins_over_earlier_timeout() {
    let mut m = ProbeMachine::new(3);
    m.record(AttemptOutcome::TimedOut);
    assert!(m.wants_attempt());
    m.record(AttemptOutcome::Connected);
    assert!(!m.wants_attempt());
    assert!(matches!(m.status(), Status::Open));
    assert_eq!(m.attempts, 2);
}

#[test]
fn timeout_sticks_over_later_refusal() {
    let mut m = ProbeMachine::new(2);
    m.record(AttemptOutcome::TimedOut);
    m.record(AttemptOutcome::Refused);
    assert!(matches!(m.status(), Status::TimedOut));
}

#[test]
fn refusal_then_timeout_is_timed_out() {
    let mut m = ProbeMachine::new(2);
    m.record(AttemptOutcome::Refused);
    m.record(AttemptOutcome::TimedOut);
    assert!(matches!(m.status(), Status::TimedOut));
}

#[test]
fn budget_is_never_exceeded() {
    let mut m = ProbeMachine::new(4);
    let mut made = 0;
    while m.wants_attempt() {
        m.record(AttemptOutcome::TimedOut);
        made += 1;
        assert!(made <= 4);
    }
    assert_eq!(made, 4);
}

#[test]
fn zero_budget_still_means_one_attempt() {
    let mut m = ProbeMachine::new(0);
    assert!(m.wants_attempt());
    m.record(AttemptOutcome::Refused);
    assert!(!m.wants_attempt());
    assert_eq!(m.attempts, 1);
    assert!(matches!(m.status(), Status::Closed));
}
