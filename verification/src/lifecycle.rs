//! The life of a service: requests in flight, idle time, and decisions to stop.
//!
//! Times are nanoseconds on a clock that never goes back.
use vstd::prelude::*;

use crate::document;
use crate::text;
use crate::wake::{self, service_target, CommandEnd, WakeTarget, LAUNCHCTL_PATH};

verus! {

/// How often idle services are looked for.
pub const IDLE_SCAN_INTERVAL: u128 = 100_000_000;

/// How long a stop check may take.
pub const STOP_CHECK_TIMEOUT: u128 = 5_000_000_000;

/// How long the stop command is awaited.
pub const STOP_COMMAND_TIMEOUT: u128 = 5_000_000_000;

/// How long after a veto no other check is made while the service stays idle.
pub const STOP_CHECK_RETRY: u128 = 30_000_000_000;

/// What changes while a service is managed.
#[derive(Clone, Copy, Debug, PartialEq, Eq, Structural)]
pub struct LifecycleState {
    pub in_flight: usize,
    pub last_completed: u128,
    pub idle_since: u128,
    pub generation: u64,
    pub attempt_in_progress: bool,
    pub last_check_finished: Option<u128>,
    pub stop_attempted_generation: Option<u64>,
}

/// A service whose requests are counted and which is stopped when idle.
pub struct ServiceLifecycle {
    pub launchd_label: String,
    pub user_id: u32,
    pub idle_timeout: u128,
    pub can_stop_command: Option<Vec<String>>,
    pub state: LifecycleState,
}

/// The right to one request in flight.
pub struct ServiceLease {
    pub released: bool,
}

/// A decision to stop that is under way.
pub struct StopAttempt {
    pub generation: u64,
    pub can_stop_command: Option<Vec<String>>,
    /// Whether it was made because the gateway shuts down.
    pub shutdown: bool,
}

/// What a stop check said.
#[derive(Clone, Copy, Debug, PartialEq, Eq, Structural)]
pub enum StopCheckOutcome {
    Allowed,
    Vetoed,
    Failed,
    TimedOut,
}

/// The stop check as a command, run without a shell.
pub struct StopCheckSpec {
    pub program: String,
    pub arguments: Vec<String>,
    pub timeout: u128,
}

/// The command that asks launchd to stop a service.
pub struct StopCommandSpec {
    pub program: &'static str,
    pub arguments: [String; 3],
}

/// The time since `earlier`, none where that is still to come.
pub open spec fn elapsed(now: u128, earlier: u128) -> int {
    if now >= earlier {
        now - earlier
    } else {
        0
    }
}

/// The generation after one activity.
pub open spec fn next_generation(generation: u64) -> u64 {
    if generation == u64::MAX {
        0
    } else {
        (generation + 1) as u64
    }
}

/// A state from the start of the gateway.
pub open spec fn fresh_state(now: u128) -> LifecycleState {
    LifecycleState {
        in_flight: 0,
        last_completed: now,
        idle_since: now,
        generation: 0,
        attempt_in_progress: false,
        last_check_finished: None,
        stop_attempted_generation: None,
    }
}

/// The state after a request for the service has arrived.
pub open spec fn after_arrival(state: LifecycleState, now: u128) -> LifecycleState {
    LifecycleState {
        idle_since: now,
        generation: next_generation(state.generation),
        last_check_finished: None,
        stop_attempted_generation: None,
        ..state
    }
}

/// The state after a lease was taken.
pub open spec fn after_acquire(state: LifecycleState) -> LifecycleState {
    LifecycleState {
        in_flight: (state.in_flight + 1) as usize,
        generation: next_generation(state.generation),
        last_check_finished: None,
        stop_attempted_generation: None,
        ..state
    }
}

/// The state after a lease was given back.
pub open spec fn after_release(state: LifecycleState, now: u128) -> LifecycleState {
    LifecycleState {
        in_flight: (state.in_flight - 1) as usize,
        last_completed: now,
        idle_since: now,
        generation: next_generation(state.generation),
        last_check_finished: None,
        stop_attempted_generation: None,
        ..state
    }
}

/// Whether a decision to stop may be made at that time.
pub open spec fn may_attempt_stop(state: LifecycleState, idle_timeout: u128, now: u128) -> bool {
    &&& state.in_flight == 0
    &&& !state.attempt_in_progress
    &&& elapsed(now, state.idle_since) >= idle_timeout
    &&& state.stop_attempted_generation != Some(state.generation)
    &&& state.last_check_finished matches Some(finished) ==> elapsed(now, finished)
        >= STOP_CHECK_RETRY
}

/// The state after a check that did not allow the stop.
pub open spec fn after_veto(
    state: LifecycleState,
    attempt_generation: u64,
    now: u128,
) -> LifecycleState {
    LifecycleState {
        attempt_in_progress: false,
        last_check_finished: if state.generation == attempt_generation && state.in_flight == 0 {
            Some(now)
        } else {
            state.last_check_finished
        },
        ..state
    }
}

/// Whether an allowed stop is still in order: nothing has happened since it was
/// decided. At gateway shutdown the idle time does not count, but no launch may
/// be running.
pub open spec fn stop_still_holds(
    state: LifecycleState,
    idle_timeout: u128,
    attempt: StopAttempt,
    wake: WakeTarget,
    now: u128,
) -> bool {
    &&& state.generation == attempt.generation
    &&& state.in_flight == 0
    &&& if attempt.shutdown {
        wake.state != wake::LaunchState::Launching
    } else {
        elapsed(now, state.idle_since) >= idle_timeout
    }
}

/// Whether a stop is started when its check has said so: only if the check allowed
/// it, and only if the stop still holds.
pub open spec fn starts_stop(
    outcome: StopCheckOutcome,
    state: LifecycleState,
    idle_timeout: u128,
    attempt: StopAttempt,
    wake: WakeTarget,
    now: u128,
) -> bool {
    outcome == StopCheckOutcome::Allowed && stop_still_holds(
        state,
        idle_timeout,
        attempt,
        wake,
        now,
    )
}

/// The state after an allowed stop that no longer held, or whose command did or
/// did not start.
pub open spec fn after_allowed(
    state: LifecycleState,
    holds: bool,
    started: bool,
    now: u128,
) -> LifecycleState {
    if !holds {
        LifecycleState { attempt_in_progress: false, ..state }
    } else if started {
        LifecycleState {
            attempt_in_progress: false,
            stop_attempted_generation: Some(state.generation),
            ..state
        }
    } else {
        LifecycleState { attempt_in_progress: false, last_check_finished: Some(now), ..state }
    }
}

/// The time since `earlier`.
pub(crate) fn elapsed_since(now: u128, earlier: u128) -> (r: u128)
    ensures
        r == elapsed(now, earlier),
{
    if now >= earlier {
        now - earlier
    } else {
        0
    }
}

impl ServiceLifecycle {
    /// A service with a full idle period before it.
    pub fn new_at(
        launchd_label: String,
        user_id: u32,
        idle_timeout: u128,
        can_stop_command: Option<Vec<String>>,
        now: u128,
    ) -> (lifecycle: ServiceLifecycle)
        ensures
            lifecycle == (ServiceLifecycle {
                launchd_label,
                user_id,
                idle_timeout,
                can_stop_command,
                state: fresh_state(now),
            }),
    {
        ServiceLifecycle {
            launchd_label,
            user_id,
            idle_timeout,
            can_stop_command,
            state: LifecycleState {
                in_flight: 0,
                last_completed: now,
                idle_since: now,
                generation: 0,
                attempt_in_progress: false,
                last_check_finished: None,
                stop_attempted_generation: None,
            },
        }
    }

    /// Notes an activity: what was decided before it is obsolete.
    fn note_activity(&mut self)
        ensures
            *final(self) == (ServiceLifecycle {
                state: LifecycleState {
                    generation: next_generation(old(self).state.generation),
                    last_check_finished: None,
                    stop_attempted_generation: None,
                    ..old(self).state
                },
                ..*old(self)
            }),
    {
        self.state.generation = self.state.generation.wrapping_add(1);
        self.state.last_check_finished = None;
        self.state.stop_attempted_generation = None;
    }

    /// Notes that a request for the service has arrived.
    pub fn note_request_arrival_at(&mut self, now: u128)
        ensures
            *final(self) == (ServiceLifecycle {
                state: after_arrival(old(self).state, now),
                ..*old(self)
            }),
    {
        self.note_activity();
        self.state.idle_since = now;
    }

    /// Takes a lease for a request that is forwarded.
    pub fn acquire_at(&mut self, _now: u128) -> (lease: ServiceLease)
        requires
            old(self).state.in_flight < usize::MAX,
        ensures
            !lease.released,
            *final(self) == (ServiceLifecycle {
                state: after_acquire(old(self).state),
                ..*old(self)
            }),
    {
        self.state.in_flight = self.state.in_flight + 1;
        self.note_activity();
        ServiceLease { released: false }
    }

    /// Gives one lease back.
    pub fn release_at(&mut self, now: u128)
        requires
            old(self).state.in_flight > 0,
        ensures
            *final(self) == (ServiceLifecycle {
                state: after_release(old(self).state, now),
                ..*old(self)
            }),
    {
        self.state.in_flight = self.state.in_flight - 1;
        self.state.last_completed = now;
        self.state.idle_since = now;
        self.note_activity();
    }

    /// Decides to stop the service if it has been idle long enough.
    pub fn begin_stop_attempt_at(&mut self, now: u128) -> (attempt: Option<StopAttempt>)
        ensures
            match attempt {
                Some(attempt) => {
                    &&& may_attempt_stop(old(self).state, old(self).idle_timeout, now)
                    &&& attempt.generation == old(self).state.generation
                    &&& document::command_view(attempt.can_stop_command)
                        == document::command_view(old(self).can_stop_command)
                    &&& !attempt.shutdown
                    &&& *final(self) == (ServiceLifecycle {
                        state: LifecycleState { attempt_in_progress: true, ..old(self).state },
                        ..*old(self)
                    })
                },
                None => !may_attempt_stop(old(self).state, old(self).idle_timeout, now)
                    && *final(self) == *old(self),
            },
    {
        let waits = match self.state.last_check_finished {
            Some(finished) => elapsed_since(now, finished) < STOP_CHECK_RETRY,
            None => false,
        };
        let already_attempted = match self.state.stop_attempted_generation {
            Some(generation) => generation == self.state.generation,
            None => false,
        };
        if self.state.in_flight != 0 || self.state.attempt_in_progress || elapsed_since(
            now,
            self.state.idle_since,
        ) < self.idle_timeout || already_attempted || waits {
            return None;
        }
        self.state.attempt_in_progress = true;
        Some(
            StopAttempt {
                generation: self.state.generation,
                can_stop_command: clone_command(&self.can_stop_command),
                shutdown: false,
            },
        )
    }

    /// Decides to stop the service because the gateway shuts down.
    pub fn begin_shutdown_attempt(&mut self) -> (attempt: StopAttempt)
        ensures
            attempt.generation == old(self).state.generation,
            document::command_view(attempt.can_stop_command)
                == document::command_view(old(self).can_stop_command),
            attempt.shutdown,
            *final(self) == (ServiceLifecycle {
                state: LifecycleState { attempt_in_progress: true, ..old(self).state },
                ..*old(self)
            }),
    {
        self.state.attempt_in_progress = true;
        StopAttempt {
            generation: self.state.generation,
            can_stop_command: clone_command(&self.can_stop_command),
            shutdown: true,
        }
    }

    /// Ends an attempt that the check did not allow.
    pub fn finish_vetoed_attempt_at(&mut self, attempt: &StopAttempt, now: u128)
        ensures
            *final(self) == (ServiceLifecycle {
                state: after_veto(old(self).state, attempt.generation, now),
                ..*old(self)
            }),
    {
        self.state.attempt_in_progress = false;
        if self.state.generation == attempt.generation && self.state.in_flight == 0 {
            self.state.last_check_finished = Some(now);
        }
    }

    /// Ends an attempt that was allowed: starts the stop if nothing has happened
    /// since the attempt began. Says whether a stop was started.
    ///
    /// The stop may be asked for only where it still holds: on any other input
    /// `start_stop` need not be callable, and it is not called.
    pub fn finish_allowed_attempt_at<F: FnOnce() -> bool>(
        &mut self,
        wake: &mut WakeTarget,
        attempt: &StopAttempt,
        now: u128,
        start_stop: F,
    ) -> (stopped: bool)
        requires
            stop_still_holds(
                old(self).state,
                old(self).idle_timeout,
                *attempt,
                *old(wake),
                now,
            ) ==> start_stop.requires(()),
        ensures
            ({
                let holds = stop_still_holds(
                    old(self).state,
                    old(self).idle_timeout,
                    *attempt,
                    *old(wake),
                    now,
                );
                &&& !holds ==> !stopped
                &&& holds ==> start_stop.ensures((), stopped)
                &&& *final(self) == (ServiceLifecycle {
                    state: after_allowed(old(self).state, holds, stopped, now),
                    ..*old(self)
                })
                &&& *final(wake) == if stopped {
                    WakeTarget { state: wake::LaunchState::Eligible, ..*old(wake) }
                } else {
                    *old(wake)
                }
            }),
    {
        self.state.attempt_in_progress = false;
        if self.state.generation != attempt.generation || self.state.in_flight != 0 {
            return false;
        }
        if attempt.shutdown {
            if wake.launch_in_progress() {
                return false;
            }
        } else if elapsed_since(now, self.state.idle_since) < self.idle_timeout {
            return false;
        }
        if start_stop() {
            wake.allow_launch_after_stop();
            self.state.stop_attempted_generation = Some(self.state.generation);
            true
        } else {
            self.state.last_check_finished = Some(now);
            false
        }
    }

    /// The stop check as a command.
    pub fn stop_check_spec(command: Vec<String>, check_timeout: u128) -> (spec: StopCheckSpec)
        requires
            command@.len() > 0,
        ensures
            spec.program@ == command@[0]@,
            text::texts(spec.arguments@) == text::texts(command@).skip(1),
            spec.timeout == check_timeout,
    {
        let mut arguments = command;
        let program = arguments.remove(0);
        assert(text::texts(arguments@) =~= text::texts(command@).skip(1));
        StopCheckSpec { program, arguments, timeout: check_timeout }
    }

    /// The command that asks launchd to stop the service.
    pub fn stop_command_spec(&self) -> (spec: StopCommandSpec)
        ensures
            spec.program@ == LAUNCHCTL_PATH@,
            spec.arguments@[0]@ == "kill"@,
            spec.arguments@[1]@ == "SIGTERM"@,
            spec.arguments@[2]@ == wake::job_target(self.user_id, self.launchd_label@),
    {
        StopCommandSpec {
            program: LAUNCHCTL_PATH,
            arguments: [
                "kill".to_owned(),
                "SIGTERM".to_owned(),
                service_target(self.user_id, self.launchd_label.as_str()),
            ],
        }
    }
}

fn clone_command(command: &Option<Vec<String>>) -> (r: Option<Vec<String>>)
    ensures
        document::command_view(r) == document::command_view(*command),
{
    match command {
        Some(command) => {
            let list = text::clone_texts(command);
            Some(list)
        },
        None => None,
    }
}

impl ServiceLease {
    /// Gives the lease back, once.
    pub fn release_at(&mut self, lifecycle: &mut ServiceLifecycle, now: u128)
        requires
            !old(self).released ==> old(lifecycle).state.in_flight > 0,
        ensures
            final(self).released,
            *final(lifecycle) == if old(self).released {
                *old(lifecycle)
            } else {
                ServiceLifecycle {
                    state: after_release(old(lifecycle).state, now),
                    ..*old(lifecycle)
                }
            },
    {
        if !self.released {
            lifecycle.release_at(now);
            self.released = true;
        }
    }
}

/// What a stop check said that ended so: only success allows the stop.
pub open spec fn outcome_of_check(end: CommandEnd) -> StopCheckOutcome {
    match end {
        CommandEnd::Exited { success: true } => StopCheckOutcome::Allowed,
        CommandEnd::Exited { success: false } => StopCheckOutcome::Vetoed,
        CommandEnd::TimedOut => StopCheckOutcome::TimedOut,
        CommandEnd::NotStarted => StopCheckOutcome::Failed,
        CommandEnd::WaitFailed => StopCheckOutcome::Failed,
    }
}

/// What a stop check said that ended so.
pub fn stop_check_outcome(end: CommandEnd) -> (outcome: StopCheckOutcome)
    ensures
        outcome == outcome_of_check(end),
{
    match end {
        CommandEnd::Exited { success: true } => StopCheckOutcome::Allowed,
        CommandEnd::Exited { success: false } => StopCheckOutcome::Vetoed,
        CommandEnd::TimedOut => StopCheckOutcome::TimedOut,
        CommandEnd::NotStarted => StopCheckOutcome::Failed,
        CommandEnd::WaitFailed => StopCheckOutcome::Failed,
    }
}

/// What a decision to stop needs first.
pub enum StopStep {
    /// The check must be run and its outcome reported.
    Check(StopCheckSpec),
    /// There is no check: the stop is allowed.
    Allowed,
}

/// How an attempt to stop ended.
#[derive(Clone, Copy, Debug, PartialEq, Eq, Structural)]
pub enum StopResult {
    /// The stop command was started.
    Stopped,
    /// The decision was obsolete, or the command did not start.
    Discarded,
    /// The check said no.
    Vetoed,
    /// The check could not be run.
    Failed,
    /// The check took too long.
    TimedOut,
}

impl StopAttempt {
    /// What the attempt needs first: the configured check, as it is written and
    /// with the fixed time limit, or nothing.
    pub fn first_step(&self) -> (step: StopStep)
        requires
            self.can_stop_command matches Some(command) ==> command@.len() > 0,
        ensures
            match step {
                StopStep::Check(spec) => {
                    &&& self.can_stop_command matches Some(command)
                    &&& seq![spec.program@] + text::texts(spec.arguments@)
                        == text::texts(command@)
                    &&& spec.timeout == STOP_CHECK_TIMEOUT
                },
                StopStep::Allowed => self.can_stop_command is None,
            },
    {
        match &self.can_stop_command {
            Some(command) => {
                let copy = text::clone_texts(command);
                assert(text::texts(copy@).len() == text::texts(command@).len());
                let spec = ServiceLifecycle::stop_check_spec(copy, STOP_CHECK_TIMEOUT);
                assert(text::texts(copy@)[0] == copy@[0]@);
                assert(seq![spec.program@] + text::texts(spec.arguments@)
                    =~= text::texts(command@));
                StopStep::Check(spec)
            },
            None => StopStep::Allowed,
        }
    }
}

impl ServiceLifecycle {
    /// Ends an attempt by what its check said. Only an allowed attempt can start
    /// the stop, and only if nothing has happened since it began: on any other
    /// input `start_stop` need not be callable, and it is not called.
    pub fn conclude_stop_attempt_at<F: FnOnce() -> bool>(
        &mut self,
        wake: &mut WakeTarget,
        attempt: &StopAttempt,
        outcome: StopCheckOutcome,
        now: u128,
        start_stop: F,
    ) -> (result: StopResult)
        requires
            starts_stop(
                outcome,
                old(self).state,
                old(self).idle_timeout,
                *attempt,
                *old(wake),
                now,
            ) ==> start_stop.requires(()),
        ensures
            ({
                let holds = starts_stop(
                    outcome,
                    old(self).state,
                    old(self).idle_timeout,
                    *attempt,
                    *old(wake),
                    now,
                );
                let stopped = result == StopResult::Stopped;
                &&& match outcome {
                    StopCheckOutcome::Allowed => result == StopResult::Stopped || result
                        == StopResult::Discarded,
                    StopCheckOutcome::Vetoed => result == StopResult::Vetoed,
                    StopCheckOutcome::Failed => result == StopResult::Failed,
                    StopCheckOutcome::TimedOut => result == StopResult::TimedOut,
                }
                &&& !holds ==> !stopped
                &&& holds ==> start_stop.ensures((), stopped)
                &&& *final(self) == (ServiceLifecycle {
                    state: if outcome == StopCheckOutcome::Allowed {
                        after_allowed(old(self).state, holds, stopped, now)
                    } else {
                        after_veto(old(self).state, attempt.generation, now)
                    },
                    ..*old(self)
                })
                &&& *final(wake) == if stopped {
                    WakeTarget { state: wake::LaunchState::Eligible, ..*old(wake) }
                } else {
                    *old(wake)
                }
            }),
    {
        match outcome {
            StopCheckOutcome::Allowed => if self.finish_allowed_attempt_at(
                wake,
                attempt,
                now,
                start_stop,
            ) {
                StopResult::Stopped
            } else {
                StopResult::Discarded
            },
            StopCheckOutcome::Vetoed => {
                self.finish_vetoed_attempt_at(attempt, now);
                StopResult::Vetoed
            },
            StopCheckOutcome::Failed => {
                self.finish_vetoed_attempt_at(attempt, now);
                StopResult::Failed
            },
            StopCheckOutcome::TimedOut => {
                self.finish_vetoed_attempt_at(attempt, now);
                StopResult::TimedOut
            },
        }
    }
}

/// Something that happens to a service.
pub enum Activity {
    Arrival(u128),
    Acquire,
    Release(u128),
}

/// The state after some activity.
pub open spec fn after_activity(state: LifecycleState, activity: Activity) -> LifecycleState {
    match activity {
        Activity::Arrival(now) => after_arrival(state, now),
        Activity::Acquire => after_acquire(state),
        Activity::Release(now) => after_release(state, now),
    }
}

/// The state after activities, one after the other.
pub open spec fn after_activities(
    state: LifecycleState,
    activities: Seq<Activity>,
) -> LifecycleState
    decreases activities.len(),
{
    if activities.len() == 0 {
        state
    } else {
        after_activity(after_activities(state, activities.drop_last()), activities.last())
    }
}

proof fn lemma_generation_after(state: LifecycleState, activities: Seq<Activity>)
    requires
        activities.len() <= u64::MAX,
    ensures
        after_activities(state, activities).generation == if state.generation + activities.len()
            > u64::MAX {
            state.generation + activities.len() - u64::MAX - 1
        } else {
            state.generation + activities.len()
        },
    decreases activities.len(),
{
    if activities.len() > 0 {
        lemma_generation_after(state, activities.drop_last());
    }
}

/// A stop that was decided before an activity is never started, whatever its check
/// said: however many requests arrive, start or end in between, short of counting
/// the generations all the way round.
pub proof fn law_activity_invalidates_stop(
    state: LifecycleState,
    activities: Seq<Activity>,
    attempt: StopAttempt,
    outcome: StopCheckOutcome,
    idle_timeout: u128,
    wake: WakeTarget,
    now: u128,
)
    requires
        attempt.generation == state.generation,
        0 < activities.len() <= u64::MAX,
    ensures
        !starts_stop(
            outcome,
            after_activities(state, activities),
            idle_timeout,
            attempt,
            wake,
            now,
        ),
{
    lemma_generation_after(state, activities);
}

/// Only a check that allows the stop lets it start: a veto, a failure and a timeout
/// do not, and a service that stayed idle then waits for its next check.
pub proof fn law_only_an_allowed_stop_is_started(
    state: LifecycleState,
    attempt: StopAttempt,
    outcome: StopCheckOutcome,
    idle_timeout: u128,
    wake: WakeTarget,
    now: u128,
)
    requires
        outcome != StopCheckOutcome::Allowed,
    ensures
        !starts_stop(outcome, state, idle_timeout, attempt, wake, now),
        !after_veto(state, attempt.generation, now).attempt_in_progress,
        state.generation == attempt.generation && state.in_flight == 0 ==> after_veto(
            state,
            attempt.generation,
            now,
        ).last_check_finished == Some(now),
{
}

/// While a request is in flight no stop is decided and none is started.
pub proof fn law_busy_service_is_not_stopped(
    state: LifecycleState,
    attempt: StopAttempt,
    outcome: StopCheckOutcome,
    idle_timeout: u128,
    wake: WakeTarget,
    now: u128,
)
    requires
        state.in_flight > 0,
    ensures
        !may_attempt_stop(state, idle_timeout, now),
        !starts_stop(outcome, state, idle_timeout, attempt, wake, now),
{
}

/// A service starts with a full idle period: it may be stopped once that is over
/// and not before.
pub proof fn law_start_gives_full_idle_period(start: u128, idle_timeout: u128, now: u128)
    requires
        start <= now,
    ensures
        may_attempt_stop(fresh_state(start), idle_timeout, now) <==> now - start >= idle_timeout,
{
}

/// The idle period begins anew when the last request completes, and when a
/// request arrives.
pub proof fn law_activity_restarts_idle_period(
    state: LifecycleState,
    idle_timeout: u128,
    then: u128,
    now: u128,
)
    requires
        then <= now,
        !state.attempt_in_progress,
    ensures
        state.in_flight == 1 ==> (may_attempt_stop(after_release(state, then), idle_timeout, now)
            <==> now - then >= idle_timeout),
        state.in_flight == 0 ==> (may_attempt_stop(after_arrival(state, then), idle_timeout, now)
            <==> now - then >= idle_timeout),
{
}

/// After a check that did not allow the stop, a service that stays idle is
/// checked again after thirty seconds and not before.
pub proof fn law_veto_holds_for_thirty_seconds(
    state: LifecycleState,
    idle_timeout: u128,
    finished: u128,
    now: u128,
)
    requires
        may_attempt_stop(state, idle_timeout, finished),
        finished <= now,
    ensures
        ({
            let attempted = LifecycleState { attempt_in_progress: true, ..state };
            may_attempt_stop(
                after_veto(attempted, state.generation, finished),
                idle_timeout,
                now,
            ) <==> now - finished >= STOP_CHECK_RETRY
        }),
{
}

/// Once a stop was started no other is decided, however long the service stays
/// without activity.
pub proof fn law_service_is_stopped_once(
    state: LifecycleState,
    idle_timeout: u128,
    stopped: u128,
    now: u128,
)
    ensures
        !may_attempt_stop(after_allowed(state, true, true, stopped), idle_timeout, now),
{
}

/// While one attempt runs, no other is begun.
pub proof fn law_attempts_do_not_overlap(state: LifecycleState, idle_timeout: u128, now: u128)
    requires
        state.attempt_in_progress,
    ensures
        !may_attempt_stop(state, idle_timeout, now),
{
}

/// What a lease takes it gives back: the requests in flight are as many as
/// before.
pub proof fn law_lease_is_accounted_for(state: LifecycleState, now: u128)
    requires
        state.in_flight < usize::MAX,
    ensures
        after_acquire(state).in_flight == state.in_flight + 1,
        after_release(after_acquire(state), now).in_flight == state.in_flight,
{
}

/// A stop is decided exactly when nothing is in flight, no other attempt runs, the
/// whole idle time has passed, none was started since the last activity, and the last
/// check that did not allow it is thirty seconds old. The attempt carries the
/// configured check, and deciding changes nothing but that an attempt runs.
pub proof fn law_stop_is_decided_when_due(
    service: &mut ServiceLifecycle,
    now: u128,
    attempt: Option<StopAttempt>,
)
    requires
        call_ensures(ServiceLifecycle::begin_stop_attempt_at, (service, now), attempt),
        old(service).idle_timeout > 0,
    ensures
        attempt is Some <==> {
            &&& old(service).state.in_flight == 0
            &&& !old(service).state.attempt_in_progress
            &&& old(service).state.idle_since + old(service).idle_timeout <= now
            &&& old(service).state.stop_attempted_generation != Some(
                old(service).state.generation,
            )
            &&& old(service).state.last_check_finished matches Some(finished) ==> finished
                + 30_000_000_000 <= now
        },
        attempt is None ==> *final(service) == *old(service),
        attempt matches Some(decided) ==> {
            &&& decided.generation == old(service).state.generation
            &&& !decided.shutdown
            &&& decided.can_stop_command is Some <==> old(service).can_stop_command is Some
            &&& decided.can_stop_command matches Some(command) ==> {
                &&& command@.len() == old(service).can_stop_command->0@.len()
                &&& forall|i: int|
                    0 <= i < command@.len() ==> (#[trigger] command@[i])@ == old(
                        service,
                    ).can_stop_command->0@[i]@
            }
            &&& final(service).state.attempt_in_progress
            &&& final(service).state.in_flight == 0
            &&& final(service).state.generation == old(service).state.generation
            &&& final(service).state.idle_since == old(service).state.idle_since
            &&& final(service).state.last_completed == old(service).state.last_completed
            &&& final(service).state.last_check_finished == old(service).state.last_check_finished
            &&& final(service).state.stop_attempted_generation == old(
                service,
            ).state.stop_attempted_generation
            &&& final(service).idle_timeout == old(service).idle_timeout
            &&& final(service).can_stop_command == old(service).can_stop_command
            &&& final(service).launchd_label == old(service).launchd_label
            &&& final(service).user_id == old(service).user_id
        },
{
    if let Some(decided) = attempt {
        lemma_same_command(decided.can_stop_command, old(service).can_stop_command);
    }
}

proof fn lemma_same_command(one: Option<Vec<String>>, other: Option<Vec<String>>)
    requires
        document::command_view(one) == document::command_view(other),
    ensures
        one is Some <==> other is Some,
        one matches Some(command) ==> {
            &&& command@.len() == other->0@.len()
            &&& forall|i: int|
                0 <= i < command@.len() ==> (#[trigger] command@[i])@ == other->0@[i]@
        },
{
    if let Some(command) = one {
        let texts = text::texts(command@);
        assert(texts.len() == text::texts(other->0@).len());
        assert forall|i: int| 0 <= i < command@.len() implies (#[trigger] command@[i])@
            == other->0@[i]@ by {
            assert(texts[i] == command@[i]@);
            assert(text::texts(other->0@)[i] == other->0@[i]@);
        }
    }
}

/// At gateway shutdown a stop is decided whatever the idle time and earlier checks
/// are, with the configured check.
pub proof fn law_shutdown_stop_carries_the_check(
    service: &mut ServiceLifecycle,
    attempt: StopAttempt,
)
    requires
        call_ensures(ServiceLifecycle::begin_shutdown_attempt, (service,), attempt),
    ensures
        attempt.shutdown,
        attempt.generation == old(service).state.generation,
        attempt.can_stop_command is Some <==> old(service).can_stop_command is Some,
        attempt.can_stop_command matches Some(command) ==> {
            &&& command@.len() == old(service).can_stop_command->0@.len()
            &&& forall|i: int|
                0 <= i < command@.len() ==> (#[trigger] command@[i])@ == old(
                    service,
                ).can_stop_command->0@[i]@
        },
        *final(service) == (ServiceLifecycle {
            state: LifecycleState { attempt_in_progress: true, ..old(service).state },
            ..*old(service)
        }),
{
    lemma_same_command(attempt.can_stop_command, old(service).can_stop_command);
}

/// An allowed stop is started exactly when there was no activity since it was decided,
/// nothing is in flight, and the whole idle time has passed or, at gateway shutdown, no
/// launch runs; nothing else counts, whatever an earlier check said. Once started, the
/// service may be launched anew at once, and is not stopped again without activity. A
/// stop that could not be started waits like one that was not allowed.
pub proof fn law_allowed_stop_is_started<F: FnOnce() -> bool>(
    service: &mut ServiceLifecycle,
    wake: &mut WakeTarget,
    attempt: StopAttempt,
    now: u128,
    start_stop: F,
    stopped: bool,
)
    requires
        call_ensures(
            ServiceLifecycle::finish_allowed_attempt_at::<F>,
            (service, wake, &attempt, now, start_stop),
            stopped,
        ),
        old(service).idle_timeout > 0,
    ensures
        ({
            let state = old(service).state;
            let in_order = {
                &&& state.generation == attempt.generation
                &&& state.in_flight == 0
                &&& attempt.shutdown ==> old(wake).state != wake::LaunchState::Launching
                &&& !attempt.shutdown ==> state.idle_since + old(service).idle_timeout <= now
            };
            let after = final(service).state;
            &&& in_order ==> start_stop.ensures((), stopped)
            &&& !in_order ==> !stopped
            &&& stopped ==> final(wake).state == wake::LaunchState::Eligible
            &&& !stopped ==> *final(wake) == *old(wake)
            &&& final(wake).upstream == old(wake).upstream
            &&& final(wake).launchd_label == old(wake).launchd_label
            &&& final(wake).user_id == old(wake).user_id
            &&& stopped ==> after.stop_attempted_generation == Some(state.generation)
            &&& !stopped ==> after.stop_attempted_generation == state.stop_attempted_generation
            &&& in_order && !stopped ==> after.last_check_finished == Some(now)
            &&& stopped || !in_order ==> after.last_check_finished == state.last_check_finished
            &&& !after.attempt_in_progress
            &&& after.in_flight == state.in_flight
            &&& after.generation == state.generation
            &&& after.idle_since == state.idle_since
            &&& after.last_completed == state.last_completed
            &&& final(service).idle_timeout == old(service).idle_timeout
            &&& final(service).can_stop_command == old(service).can_stop_command
            &&& final(service).launchd_label == old(service).launchd_label
            &&& final(service).user_id == old(service).user_id
        }),
{
}

/// An attempt ends by what its check said: only one that was allowed can start the
/// stop. A check that said no, failed or timed out leaves the service running, and if
/// there was no activity meanwhile the next check waits.
pub proof fn law_attempt_ends_by_its_check<F: FnOnce() -> bool>(
    service: &mut ServiceLifecycle,
    wake: &mut WakeTarget,
    attempt: StopAttempt,
    outcome: StopCheckOutcome,
    now: u128,
    start_stop: F,
    result: StopResult,
)
    requires
        call_ensures(
            ServiceLifecycle::conclude_stop_attempt_at::<F>,
            (service, wake, &attempt, outcome, now, start_stop),
            result,
        ),
        old(service).idle_timeout > 0,
    ensures
        ({
            let state = old(service).state;
            let after = final(service).state;
            let in_order = {
                &&& outcome == StopCheckOutcome::Allowed
                &&& state.generation == attempt.generation
                &&& state.in_flight == 0
                &&& attempt.shutdown ==> old(wake).state != wake::LaunchState::Launching
                &&& !attempt.shutdown ==> state.idle_since + old(service).idle_timeout <= now
            };
            &&& in_order ==> start_stop.ensures((), result == StopResult::Stopped)
            &&& !in_order ==> result != StopResult::Stopped
            &&& result == StopResult::Stopped ==> {
                &&& outcome == StopCheckOutcome::Allowed
                &&& final(wake).state == wake::LaunchState::Eligible
                &&& after.stop_attempted_generation == Some(state.generation)
            }
            &&& result != StopResult::Stopped ==> {
                &&& *final(wake) == *old(wake)
                &&& after.stop_attempted_generation == state.stop_attempted_generation
            }
            &&& result == StopResult::Vetoed <==> outcome == StopCheckOutcome::Vetoed
            &&& result == StopResult::Failed <==> outcome == StopCheckOutcome::Failed
            &&& result == StopResult::TimedOut <==> outcome == StopCheckOutcome::TimedOut
            &&& outcome != StopCheckOutcome::Allowed && state.generation == attempt.generation
                && state.in_flight == 0 ==> after.last_check_finished == Some(now)
            &&& state.generation != attempt.generation || state.in_flight > 0
                ==> after.last_check_finished == state.last_check_finished
            &&& !after.attempt_in_progress
            &&& after.in_flight == state.in_flight
            &&& after.generation == state.generation
            &&& after.idle_since == state.idle_since
            &&& after.last_completed == state.last_completed
            &&& final(service).idle_timeout == old(service).idle_timeout
        }),
{
}

/// A service whose check once said no is stopped all the same: while it stays idle the
/// next attempt is made thirty seconds later, not before, and if its check then allows
/// the stop it is started.
pub proof fn law_vetoed_service_is_stopped_later<F: FnOnce() -> bool>(
    first: &mut ServiceLifecycle,
    vetoed: Option<StopAttempt>,
    begun: u128,
    second: &mut ServiceLifecycle,
    finished: u128,
    third: &mut ServiceLifecycle,
    retried: Option<StopAttempt>,
    again: u128,
    fourth: &mut ServiceLifecycle,
    wake: &mut WakeTarget,
    now: u128,
    start_stop: F,
    stopped: bool,
)
    requires
        call_ensures(ServiceLifecycle::begin_stop_attempt_at, (first, begun), vetoed),
        vetoed is Some,
        *old(second) == *final(first),
        call_ensures(
            ServiceLifecycle::finish_vetoed_attempt_at,
            (second, &vetoed->0, finished),
            (),
        ),
        *old(third) == *final(second),
        call_ensures(ServiceLifecycle::begin_stop_attempt_at, (third, again), retried),
        begun <= finished <= again,
        *old(fourth) == *final(third),
        again <= now,
        retried matches Some(attempt) ==> call_ensures(
            ServiceLifecycle::finish_allowed_attempt_at::<F>,
            (fourth, wake, &attempt, now, start_stop),
            stopped,
        ),
    ensures
        retried is Some <==> again >= finished + 30_000_000_000,
        retried is Some ==> start_stop.ensures((), stopped),
        retried is Some && stopped ==> final(wake).state == wake::LaunchState::Eligible,
{
}

/// A request that arrives begins the idle time anew; what was decided or refused
/// before it no longer counts.
pub proof fn law_arrival_begins_idle_time_anew(service: &mut ServiceLifecycle, now: u128)
    requires
        call_ensures(ServiceLifecycle::note_request_arrival_at, (service, now), ()),
    ensures
        final(service).state.idle_since == now,
        final(service).state.generation != old(service).state.generation,
        final(service).state.last_check_finished is None,
        final(service).state.stop_attempted_generation is None,
        final(service).state.in_flight == old(service).state.in_flight,
        final(service).state.last_completed == old(service).state.last_completed,
        final(service).state.attempt_in_progress == old(service).state.attempt_in_progress,
        final(service).idle_timeout == old(service).idle_timeout,
        final(service).can_stop_command == old(service).can_stop_command,
        final(service).launchd_label == old(service).launchd_label,
        final(service).user_id == old(service).user_id,
{
}

/// A lease counts one request as in flight until it is given back, once; then the idle
/// time begins. Either is activity.
pub proof fn law_lease_spans_the_request(
    taking: &mut ServiceLifecycle,
    taken: u128,
    lease: ServiceLease,
    held: &mut ServiceLease,
    giving: &mut ServiceLifecycle,
    given: u128,
    returned: &mut ServiceLease,
    after: &mut ServiceLifecycle,
    later: u128,
)
    requires
        call_ensures(ServiceLifecycle::acquire_at, (taking, taken), lease),
        old(taking).state.in_flight < usize::MAX,
        *old(held) == lease,
        old(giving).state.in_flight > 0,
        call_ensures(ServiceLease::release_at, (held, giving, given), ()),
        *old(returned) == *final(held),
        *old(after) == *final(giving),
        call_ensures(ServiceLease::release_at, (returned, after, later), ()),
    ensures
        final(taking).state.in_flight == old(taking).state.in_flight + 1,
        final(taking).state.generation != old(taking).state.generation,
        final(taking).state.idle_since == old(taking).state.idle_since,
        final(taking).state.last_completed == old(taking).state.last_completed,
        final(taking).state.last_check_finished is None,
        final(taking).state.stop_attempted_generation is None,
        final(taking).state.attempt_in_progress == old(taking).state.attempt_in_progress,
        final(taking).idle_timeout == old(taking).idle_timeout,
        final(giving).state.in_flight == old(giving).state.in_flight - 1,
        final(giving).state.generation != old(giving).state.generation,
        final(giving).state.idle_since == given,
        final(giving).state.last_completed == given,
        final(giving).state.last_check_finished is None,
        final(giving).state.stop_attempted_generation is None,
        final(giving).state.attempt_in_progress == old(giving).state.attempt_in_progress,
        final(giving).idle_timeout == old(giving).idle_timeout,
        *final(after) == *old(after),
{
}

/// Activity between the decision to stop and its end discards the stop: a request that
/// arrived, one that was taken up, and one that ended.
pub proof fn law_activity_discards_a_decided_stop<F: FnOnce() -> bool>(
    first: &mut ServiceLifecycle,
    attempt: Option<StopAttempt>,
    begun: u128,
    second: &mut ServiceLifecycle,
    then: u128,
    lease: ServiceLease,
    third: &mut ServiceLifecycle,
    wake: &mut WakeTarget,
    now: u128,
    start_stop: F,
    stopped: bool,
)
    requires
        call_ensures(ServiceLifecycle::begin_stop_attempt_at, (first, begun), attempt),
        attempt is Some,
        *old(second) == *final(first),
        call_ensures(ServiceLifecycle::note_request_arrival_at, (second, then), ())
            || call_ensures(ServiceLifecycle::acquire_at, (second, then), lease)
            || call_ensures(ServiceLifecycle::release_at, (second, then), ()),
        *old(third) == *final(second),
        call_ensures(
            ServiceLifecycle::finish_allowed_attempt_at::<F>,
            (third, wake, &attempt->0, now, start_stop),
            stopped,
        ),
    ensures
        !stopped,
        *final(wake) == *old(wake),
        !final(third).state.attempt_in_progress,
{
}

/// After a stop was started none is decided while there is no activity; a request that
/// arrives makes the service due again one idle time later.
pub proof fn law_stopped_service_is_due_after_activity<F: FnOnce() -> bool>(
    first: &mut ServiceLifecycle,
    wake: &mut WakeTarget,
    attempt: StopAttempt,
    stopped_at: u128,
    start_stop: F,
    second: &mut ServiceLifecycle,
    soon: u128,
    repeated: Option<StopAttempt>,
    third: &mut ServiceLifecycle,
    arrived: u128,
    fourth: &mut ServiceLifecycle,
    now: u128,
    renewed: Option<StopAttempt>,
)
    requires
        call_ensures(
            ServiceLifecycle::finish_allowed_attempt_at::<F>,
            (first, wake, &attempt, stopped_at, start_stop),
            true,
        ),
        *old(second) == *final(first),
        call_ensures(ServiceLifecycle::begin_stop_attempt_at, (second, soon), repeated),
        *old(third) == *final(second),
        call_ensures(ServiceLifecycle::note_request_arrival_at, (third, arrived), ()),
        *old(fourth) == *final(third),
        call_ensures(ServiceLifecycle::begin_stop_attempt_at, (fourth, now), renewed),
        arrived <= now,
    ensures
        repeated is None,
        renewed is Some <==> now - arrived >= old(first).idle_timeout,
{
}

/// A stop that could not be started is tried again after thirty seconds, and not before,
/// while the service stays idle.
pub proof fn law_failed_start_is_tried_again<F: FnOnce() -> bool>(
    first: &mut ServiceLifecycle,
    attempt: Option<StopAttempt>,
    begun: u128,
    second: &mut ServiceLifecycle,
    wake: &mut WakeTarget,
    failed: u128,
    start_stop: F,
    third: &mut ServiceLifecycle,
    now: u128,
    again: Option<StopAttempt>,
)
    requires
        call_ensures(ServiceLifecycle::begin_stop_attempt_at, (first, begun), attempt),
        attempt is Some,
        *old(second) == *final(first),
        call_ensures(
            ServiceLifecycle::finish_allowed_attempt_at::<F>,
            (second, wake, &attempt->0, failed, start_stop),
            false,
        ),
        *old(third) == *final(second),
        call_ensures(ServiceLifecycle::begin_stop_attempt_at, (third, now), again),
        begun <= failed <= now,
    ensures
        again is Some <==> now >= failed + 30_000_000_000,
{
}

/// A check that ends with success allows the stop, and nothing else does: any other
/// exit is a veto, and one that did not run or did not end in time is told apart.
pub proof fn law_only_success_allows_the_stop(end: CommandEnd, outcome: StopCheckOutcome)
    requires
        call_ensures(stop_check_outcome, (end,), outcome),
    ensures
        outcome == StopCheckOutcome::Allowed <==> end == (CommandEnd::Exited { success: true }),
        outcome == StopCheckOutcome::Vetoed <==> end == (CommandEnd::Exited { success: false }),
        outcome == StopCheckOutcome::TimedOut <==> end == CommandEnd::TimedOut,
        outcome == StopCheckOutcome::Failed <==> end == CommandEnd::NotStarted || end
            == CommandEnd::WaitFailed,
{
}

/// A configured check is run as it is written, its first text as the program and the
/// others as the arguments in their order, for five seconds at most; without one the
/// stop is allowed at once.
pub proof fn law_check_is_run_as_written(attempt: StopAttempt, step: StopStep)
    requires
        call_ensures(StopAttempt::first_step, (&attempt,), step),
        attempt.can_stop_command matches Some(command) ==> command@.len() > 0,
    ensures
        step is Allowed <==> attempt.can_stop_command is None,
        step matches StopStep::Check(spec) ==> {
            let command = attempt.can_stop_command->0@;
            &&& spec.program@ == command[0]@
            &&& spec.arguments@.len() == command.len() - 1
            &&& forall|i: int|
                1 <= i < command.len() ==> (#[trigger] command[i])@ == spec.arguments@[i - 1]@
            &&& spec.timeout == 5_000_000_000
        },
{
    if let StopStep::Check(spec) = step {
        let command = attempt.can_stop_command->0@;
        let all = seq![spec.program@] + text::texts(spec.arguments@);
        assert(all == text::texts(command));
        assert(all.len() == command.len());
        assert(all[0] == text::texts(command)[0]);
        assert forall|i: int| 1 <= i < command.len() implies (#[trigger] command[i])@
            == spec.arguments@[i - 1]@ by {
            assert(all[i] == text::texts(command)[i]);
            assert(text::texts(spec.arguments@)[i - 1] == spec.arguments@[i - 1]@);
        }
    }
}

/// A command is split into its program and its arguments, in their order, with the time
/// limit that is given.
pub proof fn law_check_command_is_split(command: Vec<String>, limit: u128, spec: StopCheckSpec)
    requires
        call_ensures(ServiceLifecycle::stop_check_spec, (command, limit), spec),
        command@.len() > 0,
    ensures
        spec.program@ == command@[0]@,
        spec.arguments@.len() == command@.len() - 1,
        forall|i: int|
            1 <= i < command@.len() ==> (#[trigger] command@[i])@ == spec.arguments@[i - 1]@,
        spec.timeout == limit,
{
    let all = text::texts(command@);
    let rest = text::texts(spec.arguments@);
    assert(rest == all.skip(1));
    assert(rest.len() == spec.arguments@.len());
    assert forall|i: int| 1 <= i < command@.len() implies (#[trigger] command@[i])@
        == spec.arguments@[i - 1]@ by {
        assert(rest[i - 1] == all[i]);
    }
}

/// A service is stopped by asking launchd to send its job, and no other, the signal to
/// terminate.
pub proof fn law_stop_command_signals_the_job(service: ServiceLifecycle, spec: StopCommandSpec)
    requires
        call_ensures(ServiceLifecycle::stop_command_spec, (&service,), spec),
    ensures
        spec.program@ == "/bin/launchctl"@,
        spec.arguments@.len() == 3,
        spec.arguments@[0]@ == "kill"@,
        spec.arguments@[1]@ == "SIGTERM"@,
        spec.arguments@[2]@ == "gui/"@ + text::decimal(service.user_id as nat) + "/"@
            + service.launchd_label@,
{
}

/// A service that is taken up has nothing in flight and its whole idle time before it:
/// the first stop is decided when that is over.
pub proof fn law_new_service_has_its_idle_time(
    launchd_label: String,
    user_id: u32,
    idle_timeout: u128,
    can_stop_command: Option<Vec<String>>,
    start: u128,
    made: ServiceLifecycle,
    service: &mut ServiceLifecycle,
    now: u128,
    attempt: Option<StopAttempt>,
)
    requires
        call_ensures(
            ServiceLifecycle::new_at,
            (launchd_label, user_id, idle_timeout, can_stop_command, start),
            made,
        ),
        *old(service) == made,
        call_ensures(ServiceLifecycle::begin_stop_attempt_at, (service, now), attempt),
        start <= now,
    ensures
        made.launchd_label == launchd_label,
        made.user_id == user_id,
        made.idle_timeout == idle_timeout,
        made.can_stop_command == can_stop_command,
        made.state.in_flight == 0,
        attempt is Some <==> now - start >= idle_timeout,
{
}

/// The times that are fixed: idle services are looked for ten times a second, a check
/// and a stop command have five seconds each, and a check that did not allow the stop
/// is repeated after thirty.
pub proof fn law_fixed_stop_times()
    ensures
        IDLE_SCAN_INTERVAL == 100_000_000,
        STOP_CHECK_TIMEOUT == 5_000_000_000,
        STOP_COMMAND_TIMEOUT == 5_000_000_000,
        STOP_CHECK_RETRY == 30_000_000_000,
{
}

} // verus!
