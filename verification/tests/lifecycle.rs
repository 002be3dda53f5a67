use roused::address::{parse_socket_address, SocketAddress};
use roused::lifecycle::{
    stop_check_outcome, ServiceLifecycle, StopCheckOutcome, StopResult, StopStep,
    STOP_CHECK_RETRY, STOP_CHECK_TIMEOUT, STOP_COMMAND_TIMEOUT,
};
use roused::wake::{
    launch_outcome, CommandEnd, LaunchOutcome, LaunchState, WakeTarget, RETRY_COOLDOWN,
};
use std::cell::Cell;

const SECOND: u128 = 1_000_000_000;
const START: u128 = 1_000 * SECOND;

fn address(text: &str) -> SocketAddress {
    parse_socket_address(text).unwrap()
}

fn lifecycle_at(
    now: u128,
    idle_timeout: u128,
    command: Option<Vec<String>>,
) -> (ServiceLifecycle, WakeTarget) {
    let wake_target = WakeTarget::new(
        address("127.0.0.1:19003"),
        "net.test.lifecycle".to_owned(),
        501,
    );
    let lifecycle = ServiceLifecycle::new_at(
        "net.test.lifecycle".to_owned(),
        501,
        idle_timeout,
        command,
        now,
    );
    (lifecycle, wake_target)
}

#[test]
fn startup_grace_and_release_accounting_use_explicit_times() {
    let (mut lifecycle, _) = lifecycle_at(START, 10 * SECOND, None);
    assert!(lifecycle
        .begin_stop_attempt_at(START + 9 * SECOND)
        .is_none());

    lifecycle.note_request_arrival_at(START + 5 * SECOND);
    let mut lease = lifecycle.acquire_at(START + 5 * SECOND);
    assert_eq!(lifecycle.state.in_flight, 1);
    assert_eq!(lifecycle.state.generation, 2);
    assert!(lifecycle
        .begin_stop_attempt_at(START + 30 * SECOND)
        .is_none());

    let completed = START + 31 * SECOND;
    lease.release_at(&mut lifecycle, completed);
    lease.release_at(&mut lifecycle, completed + SECOND);
    assert_eq!(lifecycle.state.in_flight, 0);
    assert_eq!(lifecycle.state.last_completed, completed);
    assert_eq!(lifecycle.state.idle_since, completed);
    assert_eq!(lifecycle.state.generation, 3);
}

#[test]
fn veto_retry_boundary_is_thirty_seconds_while_idle() {
    let (mut lifecycle, _) = lifecycle_at(START, SECOND, None);
    let first = lifecycle.begin_stop_attempt_at(START + SECOND).unwrap();
    let finished = START + 2 * SECOND;
    lifecycle.finish_vetoed_attempt_at(&first, finished);

    assert!(lifecycle
        .begin_stop_attempt_at(finished + STOP_CHECK_RETRY - 1)
        .is_none());
    assert!(lifecycle
        .begin_stop_attempt_at(finished + STOP_CHECK_RETRY)
        .is_some());
    assert_eq!(STOP_CHECK_RETRY, 30 * SECOND);
}

#[test]
fn activity_during_check_invalidates_atomic_stop() {
    let (mut lifecycle, mut wake) = lifecycle_at(START, SECOND, None);
    let attempt = lifecycle.begin_stop_attempt_at(START + SECOND).unwrap();
    lifecycle.note_request_arrival_at(START + 2 * SECOND);
    let stop_called = Cell::new(false);
    assert!(!lifecycle.finish_allowed_attempt_at(
        &mut wake,
        &attempt,
        START + 3 * SECOND,
        || {
            stop_called.set(true);
            true
        }
    ));
    assert!(!stop_called.get());
}

#[test]
fn no_checker_allows_idle_stop_and_command_is_fixed() {
    let (mut lifecycle, mut wake) = lifecycle_at(START, SECOND, None);
    let attempt = lifecycle.begin_stop_attempt_at(START + SECOND).unwrap();
    assert!(attempt.can_stop_command.is_none());
    let spec = lifecycle.stop_command_spec();
    assert_eq!(spec.program, "/bin/launchctl");
    assert_eq!(
        spec.arguments,
        [
            "kill".to_owned(),
            "SIGTERM".to_owned(),
            "gui/501/net.test.lifecycle".to_owned(),
        ]
    );
    assert!(lifecycle.finish_allowed_attempt_at(&mut wake, &attempt, START + SECOND, || true));
    assert!(lifecycle
        .begin_stop_attempt_at(START + 2 * SECOND)
        .is_none());
}

#[test]
fn checker_spec_preserves_direct_argv_and_fixed_timeout() {
    let spec = ServiceLifecycle::stop_check_spec(
        vec![
            "/absolute/checker".to_owned(),
            "literal argument".to_owned(),
            "$(not-a-shell)".to_owned(),
        ],
        STOP_CHECK_TIMEOUT,
    );
    assert_eq!(spec.program, "/absolute/checker");
    assert_eq!(
        spec.arguments,
        vec!["literal argument".to_owned(), "$(not-a-shell)".to_owned()]
    );
    assert_eq!(spec.timeout, 5 * SECOND);
}

#[test]
fn concurrent_requests_and_cooldown_deduplicate_launches() {
    let mut target = WakeTarget::new(
        address("127.0.0.1:19001"),
        "net.test.wake".to_owned(),
        501,
    );
    let mut calls = 0;
    for _ in 0..20 {
        if target.request_launch_at(START) {
            calls += 1;
        }
    }
    assert_eq!(calls, 1);
    assert!(target.launch_in_progress());

    let finished = START + SECOND;
    target.launch_finished_at(finished);
    assert!(!target.launch_in_progress());
    for offset in [0, SECOND, 4 * SECOND] {
        if target.request_launch_at(finished + offset) {
            calls += 1;
        }
    }
    assert_eq!(calls, 1);
    assert!(!target.request_launch_at(finished + RETRY_COOLDOWN - 1));

    if target.request_launch_at(finished + RETRY_COOLDOWN) {
        calls += 1;
    }
    assert_eq!(calls, 2);
    assert_eq!(RETRY_COOLDOWN, 5 * SECOND);
}

#[test]
fn launchctl_command_is_fixed_and_has_no_force_flag() {
    let target = WakeTarget::new(
        address("127.0.0.1:19001"),
        "net.test.wake".to_owned(),
        502,
    );
    let spec = target.command_spec();
    assert_eq!(spec.program, "/bin/launchctl");
    assert_eq!(
        spec.arguments,
        ["kickstart".to_owned(), "gui/502/net.test.wake".to_owned()]
    );
    assert_eq!(spec.timeout, 5 * SECOND);
    assert!(!target
        .command_spec()
        .arguments
        .iter()
        .any(|value| value == "-k"));
    assert_eq!(target.upstream(), address("127.0.0.1:19001"));
}

#[test]
fn intentional_stop_makes_the_next_wake_immediately_eligible() {
    let mut target = WakeTarget::new(
        address("127.0.0.1:19001"),
        "net.test.wake".to_owned(),
        501,
    );
    let mut calls = 0;
    if target.request_launch_at(START) {
        calls += 1;
    }
    assert_eq!(calls, 1);
    target.launch_finished_at(START);

    target.allow_launch_after_stop();
    if target.request_launch_at(START) {
        calls += 1;
    }
    assert_eq!(calls, 2);
}

#[test]
fn a_started_stop_makes_the_service_eligible_again() {
    let (mut lifecycle, mut wake) = lifecycle_at(START, SECOND, None);
    assert!(wake.request_launch_at(START));
    wake.launch_finished_at(START);
    let attempt = lifecycle.begin_stop_attempt_at(START + SECOND).unwrap();
    assert!(lifecycle.finish_allowed_attempt_at(&mut wake, &attempt, START + SECOND, || true));
    assert_eq!(wake.state, LaunchState::Eligible);
    lifecycle.note_request_arrival_at(START + 2 * SECOND);
    assert!(lifecycle
        .begin_stop_attempt_at(START + 3 * SECOND)
        .is_some());
}

#[test]
fn a_stop_that_does_not_start_is_tried_again_later() {
    let (mut lifecycle, mut wake) = lifecycle_at(START, SECOND, None);
    let attempt = lifecycle.begin_stop_attempt_at(START + SECOND).unwrap();
    assert!(!lifecycle.finish_allowed_attempt_at(&mut wake, &attempt, START + SECOND, || false));
    assert!(lifecycle
        .begin_stop_attempt_at(START + 30 * SECOND)
        .is_none());
    assert!(lifecycle
        .begin_stop_attempt_at(START + 31 * SECOND)
        .is_some());
    assert!(lifecycle
        .begin_stop_attempt_at(START + 90 * SECOND)
        .is_none());
}

#[test]
fn generations_count_round() {
    let (mut lifecycle, _) = lifecycle_at(START, SECOND, None);
    lifecycle.state.generation = u64::MAX;
    lifecycle.note_request_arrival_at(START);
    assert_eq!(lifecycle.state.generation, 0);
}

#[test]
fn only_a_successful_check_allows_the_stop() {
    assert_eq!(
        stop_check_outcome(CommandEnd::Exited { success: true }),
        StopCheckOutcome::Allowed
    );
    assert_eq!(
        stop_check_outcome(CommandEnd::Exited { success: false }),
        StopCheckOutcome::Vetoed
    );
    assert_eq!(
        stop_check_outcome(CommandEnd::NotStarted),
        StopCheckOutcome::Failed
    );
    assert_eq!(
        stop_check_outcome(CommandEnd::WaitFailed),
        StopCheckOutcome::Failed
    );
    assert_eq!(
        stop_check_outcome(CommandEnd::TimedOut),
        StopCheckOutcome::TimedOut
    );
    assert_eq!(
        launch_outcome(CommandEnd::Exited { success: true }),
        LaunchOutcome::Succeeded
    );
    for end in [
        CommandEnd::Exited { success: false },
        CommandEnd::NotStarted,
        CommandEnd::WaitFailed,
    ] {
        assert_eq!(launch_outcome(end), LaunchOutcome::Failed);
    }
    assert_eq!(launch_outcome(CommandEnd::TimedOut), LaunchOutcome::TimedOut);
}

#[test]
fn an_attempt_runs_its_check_first() {
    let command = vec!["/bin/check".to_owned(), "now".to_owned()];
    let (mut lifecycle, mut wake) = lifecycle_at(START, SECOND, Some(command));
    for (outcome, expected) in [
        (StopCheckOutcome::Vetoed, StopResult::Vetoed),
        (StopCheckOutcome::Failed, StopResult::Failed),
        (StopCheckOutcome::TimedOut, StopResult::TimedOut),
        (StopCheckOutcome::Allowed, StopResult::Stopped),
    ] {
        lifecycle.note_request_arrival_at(START);
        let attempt = lifecycle.begin_stop_attempt_at(START + SECOND).unwrap();
        match attempt.first_step() {
            StopStep::Check(spec) => {
                assert_eq!(spec.program, "/bin/check");
                assert_eq!(spec.arguments, vec!["now".to_owned()]);
                assert_eq!(spec.timeout, STOP_CHECK_TIMEOUT);
            }
            StopStep::Allowed => panic!("the check was passed over"),
        }
        let called = Cell::new(false);
        let result = lifecycle.conclude_stop_attempt_at(
            &mut wake,
            &attempt,
            outcome,
            START + SECOND,
            || {
                called.set(true);
                true
            },
        );
        assert_eq!(result, expected);
        assert_eq!(called.get(), expected == StopResult::Stopped);
    }
    assert_eq!(STOP_COMMAND_TIMEOUT, 5 * SECOND);
    let (mut unchecked, _) = lifecycle_at(START, SECOND, None);
    let attempt = unchecked.begin_stop_attempt_at(START + SECOND).unwrap();
    assert!(matches!(attempt.first_step(), StopStep::Allowed));
}

#[test]
fn a_shutdown_attempt_counts_launches_but_not_idle_time() {
    let (mut lifecycle, mut wake) = lifecycle_at(START, 1_000 * SECOND, None);
    let attempt = lifecycle.begin_shutdown_attempt();
    assert!(attempt.shutdown);
    wake.state = LaunchState::Launching;
    assert!(!lifecycle.finish_allowed_attempt_at(&mut wake, &attempt, START, || true));
    wake.state = LaunchState::CoolingDownUntil(START + SECOND);
    let attempt = lifecycle.begin_shutdown_attempt();
    assert!(lifecycle.finish_allowed_attempt_at(&mut wake, &attempt, START, || true));
}
