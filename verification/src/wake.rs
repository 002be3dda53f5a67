//! Waking a service: when a launch is started, and which command does it.
//!
//! Times are nanoseconds on a clock that never goes back.
use vstd::prelude::*;

use crate::address::SocketAddress;
use crate::text::{self, push_decimal};

verus! {

/// The program that talks to launchd.
pub const LAUNCHCTL_PATH: &'static str = "/bin/launchctl";

/// How long a connection to the service is tried.
pub const READINESS_TIMEOUT: u128 = 100_000_000;

/// How long a launch may take.
pub const LAUNCH_TIMEOUT: u128 = 5_000_000_000;

/// How long no other launch is started after one.
pub const RETRY_COOLDOWN: u128 = 5_000_000_000;

/// Whether a launch may be started.
#[derive(Clone, Copy, Debug, PartialEq, Eq, Structural)]
pub enum LaunchState {
    /// At the next request.
    Eligible,
    /// Not until the one that runs has finished.
    Launching,
    /// Not before that time.
    CoolingDownUntil(u128),
}

/// A service that can be woken.
pub struct WakeTarget {
    pub upstream: SocketAddress,
    pub launchd_label: String,
    pub user_id: u32,
    pub state: LaunchState,
}

/// A command with two arguments and a time limit.
pub struct CommandSpec {
    pub program: &'static str,
    pub arguments: [String; 2],
    pub timeout: u128,
}

/// How a command ended.
#[derive(Clone, Copy, Debug, PartialEq, Eq, Structural)]
pub enum CommandEnd {
    NotStarted,
    Exited { success: bool },
    WaitFailed,
    TimedOut,
}

/// How a launch ended.
#[derive(Clone, Copy, Debug, PartialEq, Eq, Structural)]
pub enum LaunchOutcome {
    Succeeded,
    Failed,
    TimedOut,
}

/// Whether a request at that time starts a launch.
pub open spec fn may_launch(state: LaunchState, now: u128) -> bool {
    match state {
        LaunchState::Eligible => true,
        LaunchState::Launching => false,
        LaunchState::CoolingDownUntil(until) => now >= until,
    }
}

/// The state after a request at that time.
pub open spec fn after_request(state: LaunchState, now: u128) -> LaunchState {
    if may_launch(state, now) {
        LaunchState::Launching
    } else {
        state
    }
}

/// The name of a job in the user's launchd domain.
pub open spec fn job_target(user_id: u32, label: Seq<char>) -> Seq<char> {
    "gui/"@ + text::decimal(user_id as nat) + "/"@ + label
}

/// The name of a job in the user's launchd domain.
pub fn service_target(user_id: u32, label: &str) -> (target: String)
    ensures
        target@ == job_target(user_id, label@),
{
    let mut target = "gui/".to_owned();
    push_decimal(&mut target, user_id as u64);
    target.push_str("/");
    target.push_str(label);
    target
}

impl WakeTarget {
    /// A service that has not been launched.
    pub fn new(upstream: SocketAddress, launchd_label: String, user_id: u32) -> (target: WakeTarget)
        ensures
            target == (WakeTarget {
                upstream,
                launchd_label,
                user_id,
                state: LaunchState::Eligible,
            }),
    {
        WakeTarget { upstream, launchd_label, user_id, state: LaunchState::Eligible }
    }

    /// The address that the service listens on.
    pub fn upstream(&self) -> (r: SocketAddress)
        ensures
            r == self.upstream,
    {
        self.upstream
    }

    /// Asks for a launch; the caller starts one if the answer is yes.
    pub fn request_launch_at(&mut self, now: u128) -> (start: bool)
        ensures
            start == may_launch(old(self).state, now),
            *final(self) == (WakeTarget {
                state: after_request(old(self).state, now),
                ..*old(self)
            }),
    {
        let start = match self.state {
            LaunchState::Eligible => true,
            LaunchState::Launching => false,
            LaunchState::CoolingDownUntil(until) => now >= until,
        };
        if start {
            self.state = LaunchState::Launching;
        }
        start
    }

    /// Notes that the launch has finished, whatever its outcome.
    pub fn launch_finished_at(&mut self, now: u128)
        requires
            now + RETRY_COOLDOWN <= u128::MAX,
        ensures
            *final(self) == (WakeTarget {
                state: LaunchState::CoolingDownUntil((now + RETRY_COOLDOWN) as u128),
                ..*old(self)
            }),
    {
        self.state = LaunchState::CoolingDownUntil(now + RETRY_COOLDOWN);
    }

    /// Notes that the service was stopped on purpose.
    pub fn allow_launch_after_stop(&mut self)
        ensures
            *final(self) == (WakeTarget { state: LaunchState::Eligible, ..*old(self) }),
    {
        self.state = LaunchState::Eligible;
    }

    /// Whether a launch is running.
    pub fn launch_in_progress(&self) -> (r: bool)
        ensures
            r == (self.state == LaunchState::Launching),
    {
        match self.state {
            LaunchState::Launching => true,
            _ => false,
        }
    }

    /// The command that launches the service.
    pub fn command_spec(&self) -> (spec: CommandSpec)
        ensures
            spec.program@ == LAUNCHCTL_PATH@,
            spec.arguments@[0]@ == "kickstart"@,
            spec.arguments@[1]@ == job_target(self.user_id, self.launchd_label@),
            spec.timeout == LAUNCH_TIMEOUT,
    {
        CommandSpec {
            program: LAUNCHCTL_PATH,
            arguments: [
                "kickstart".to_owned(),
                service_target(self.user_id, self.launchd_label.as_str()),
            ],
            timeout: LAUNCH_TIMEOUT,
        }
    }
}

/// The outcome of a launch whose command ended so.
pub open spec fn outcome_of_launch(end: CommandEnd) -> LaunchOutcome {
    match end {
        CommandEnd::Exited { success: true } => LaunchOutcome::Succeeded,
        CommandEnd::TimedOut => LaunchOutcome::TimedOut,
        _ => LaunchOutcome::Failed,
    }
}

/// The outcome of a launch whose command ended so.
pub fn launch_outcome(end: CommandEnd) -> (outcome: LaunchOutcome)
    ensures
        outcome == outcome_of_launch(end),
{
    match end {
        CommandEnd::Exited { success: true } => LaunchOutcome::Succeeded,
        CommandEnd::TimedOut => LaunchOutcome::TimedOut,
        _ => LaunchOutcome::Failed,
    }
}

/// How many launches requests at those times start, one after the other.
pub open spec fn launches_started(state: LaunchState, times: Seq<u128>) -> nat
    decreases times.len(),
{
    if times.len() == 0 {
        0
    } else {
        launches_started(state, times.drop_last()) + if may_launch(
            after_requests(state, times.drop_last()),
            times.last(),
        ) {
            1nat
        } else {
            0nat
        }
    }
}

/// The state after requests at those times.
pub open spec fn after_requests(state: LaunchState, times: Seq<u128>) -> LaunchState
    decreases times.len(),
{
    if times.len() == 0 {
        state
    } else {
        after_request(after_requests(state, times.drop_last()), times.last())
    }
}

/// However many requests come, no more than one launch is started before the
/// launch is reported finished, and none while one is running.
pub proof fn law_launches_are_deduplicated(state: LaunchState, times: Seq<u128>)
    ensures
        launches_started(state, times) <= 1,
        state == LaunchState::Launching ==> launches_started(state, times) == 0,
        launches_started(state, times) == 1 ==> after_requests(state, times)
            == LaunchState::Launching,
        launches_started(state, times) == 0 ==> after_requests(state, times) == state,
    decreases times.len(),
{
    if times.len() > 0 {
        law_launches_are_deduplicated(state, times.drop_last());
    }
}

/// After a launch has finished, no request of the next five seconds starts
/// another; the first one after them does.
pub proof fn law_finished_launch_cools_down(finished: u128, times: Seq<u128>, later: u128)
    requires
        finished + RETRY_COOLDOWN <= u128::MAX,
        forall|i: int|
            0 <= i < times.len() ==> #[trigger] times[i] < finished + RETRY_COOLDOWN,
        later >= finished + RETRY_COOLDOWN,
    ensures
        ({
            let cooling = LaunchState::CoolingDownUntil((finished + RETRY_COOLDOWN) as u128);
            launches_started(cooling, times) == 0 && may_launch(
                after_requests(cooling, times),
                later,
            )
        }),
    decreases times.len(),
{
    if times.len() > 0 {
        law_finished_launch_cools_down(finished, times.drop_last(), later);
        let cooling = LaunchState::CoolingDownUntil((finished + RETRY_COOLDOWN) as u128);
        law_launches_are_deduplicated(cooling, times.drop_last());
    }
}

/// After an intended stop the next request starts a launch at once.
pub proof fn law_stop_makes_launch_eligible(now: u128)
    ensures
        may_launch(LaunchState::Eligible, now),
{
}

/// A request starts a launch exactly when none runs and the time of rest after the
/// last one is over; from then on a launch runs.
pub proof fn law_launch_is_started_when_due(target: &mut WakeTarget, now: u128, start: bool)
    requires
        call_ensures(WakeTarget::request_launch_at, (target, now), start),
    ensures
        old(target).state is Eligible ==> start,
        old(target).state is Launching ==> !start,
        old(target).state matches LaunchState::CoolingDownUntil(until) ==> (start <==> until
            <= now),
        start ==> final(target).state is Launching,
        !start ==> final(target).state == old(target).state,
        final(target).upstream == old(target).upstream,
        final(target).launchd_label == old(target).launchd_label,
        final(target).user_id == old(target).user_id,
{
}

/// From one launch to the next: while it runs no request starts another, and after it
/// has finished none does for five seconds; the first one from then on does.
pub proof fn law_launches_are_five_seconds_apart(
    first: &mut WakeTarget,
    started: u128,
    second: &mut WakeTarget,
    meanwhile: u128,
    repeated: bool,
    third: &mut WakeTarget,
    finished: u128,
    fourth: &mut WakeTarget,
    now: u128,
    again: bool,
)
    requires
        call_ensures(WakeTarget::request_launch_at, (first, started), true),
        *old(second) == *final(first),
        call_ensures(WakeTarget::request_launch_at, (second, meanwhile), repeated),
        *old(third) == *final(second),
        finished + 5_000_000_000 <= u128::MAX,
        call_ensures(WakeTarget::launch_finished_at, (third, finished), ()),
        *old(fourth) == *final(third),
        call_ensures(WakeTarget::request_launch_at, (fourth, now), again),
    ensures
        !repeated,
        again <==> now >= finished + 5_000_000_000,
        final(fourth).upstream == old(first).upstream,
        final(fourth).launchd_label == old(first).launchd_label,
        final(fourth).user_id == old(first).user_id,
{
}

/// After an intended stop the next request starts a launch at once, also where one had
/// just finished.
pub proof fn law_stopped_service_is_launched_at_once(
    first: &mut WakeTarget,
    second: &mut WakeTarget,
    now: u128,
    start: bool,
)
    requires
        call_ensures(WakeTarget::allow_launch_after_stop, (first,), ()),
        *old(second) == *final(first),
        call_ensures(WakeTarget::request_launch_at, (second, now), start),
    ensures
        start,
        final(first).upstream == old(first).upstream,
        final(first).launchd_label == old(first).launchd_label,
        final(first).user_id == old(first).user_id,
{
}

/// A launch is in progress from the request that starts it until it has finished.
pub proof fn law_launch_is_in_progress_until_finished(
    first: &mut WakeTarget,
    started: u128,
    running: bool,
    second: &mut WakeTarget,
    finished: u128,
    ended: bool,
)
    requires
        call_ensures(WakeTarget::request_launch_at, (first, started), true),
        call_ensures(WakeTarget::launch_in_progress, (final(first),), running),
        *old(second) == *final(first),
        finished + 5_000_000_000 <= u128::MAX,
        call_ensures(WakeTarget::launch_finished_at, (second, finished), ()),
        call_ensures(WakeTarget::launch_in_progress, (final(second),), ended),
    ensures
        running,
        !ended,
{
}

/// A service is woken by asking launchd to start its job in the user's domain, and no
/// other, for five seconds at most.
pub proof fn law_launch_command_starts_the_job(target: WakeTarget, spec: CommandSpec)
    requires
        call_ensures(WakeTarget::command_spec, (&target,), spec),
    ensures
        spec.program@ == "/bin/launchctl"@,
        spec.arguments@.len() == 2,
        spec.arguments@[0]@ == "kickstart"@,
        spec.arguments@[1]@ == "gui/"@ + text::decimal(target.user_id as nat) + "/"@
            + target.launchd_label@,
        spec.timeout == 5_000_000_000,
{
}

/// The name of a job tells user and label: different ones have different names.
pub proof fn law_job_names_are_distinct(
    one_user: u32,
    one_label: &str,
    one: String,
    other_user: u32,
    other_label: &str,
    other: String,
)
    requires
        call_ensures(service_target, (one_user, one_label), one),
        call_ensures(service_target, (other_user, other_label), other),
        one@ == other@,
    ensures
        one_user == other_user,
        one_label@ == other_label@,
{
    reveal_strlit("gui/");
    reveal_strlit("/");
    let a = text::decimal(one_user as nat);
    let b = text::decimal(other_user as nat);
    text::lemma_decimal(one_user as nat);
    text::lemma_decimal(other_user as nat);
    let s = one@;
    let m = a.len() as int;
    let n = b.len() as int;
    assert(s == "gui/"@ + a + "/"@ + one_label@);
    assert(s == "gui/"@ + b + "/"@ + other_label@);
    assert(s[4 + m] == '/');
    assert(s[4 + n] == '/');
    if m < n {
        assert(s[4 + m] == b[m]);
    } else if n < m {
        assert(s[4 + n] == a[n]);
    }
    assert(a =~= s.subrange(4, 4 + m));
    assert(b =~= s.subrange(4, 4 + n));
    assert(one_label@ =~= s.skip(5 + m));
    assert(other_label@ =~= s.skip(5 + n));
}

/// A launch has succeeded exactly when its command exited with success, and timed out
/// exactly when the command did.
pub proof fn law_launch_outcome_tells_how_it_ended(end: CommandEnd, outcome: LaunchOutcome)
    requires
        call_ensures(launch_outcome, (end,), outcome),
    ensures
        outcome == LaunchOutcome::Succeeded <==> end == (CommandEnd::Exited { success: true }),
        outcome == LaunchOutcome::TimedOut <==> end == CommandEnd::TimedOut,
        outcome == LaunchOutcome::Failed <==> end == (CommandEnd::Exited { success: false }) || end
            == CommandEnd::NotStarted || end == CommandEnd::WaitFailed,
{
}

/// A service that is taken up can be launched by the first request.
pub proof fn law_new_service_can_be_launched(
    upstream: SocketAddress,
    launchd_label: String,
    user_id: u32,
    made: WakeTarget,
    address: SocketAddress,
    target: &mut WakeTarget,
    now: u128,
    start: bool,
)
    requires
        call_ensures(WakeTarget::new, (upstream, launchd_label, user_id), made),
        call_ensures(WakeTarget::upstream, (&made,), address),
        *old(target) == made,
        call_ensures(WakeTarget::request_launch_at, (target, now), start),
    ensures
        address == upstream,
        made.launchd_label == launchd_label,
        made.user_id == user_id,
        start,
{
}

/// The times that are fixed: a connection is tried for a tenth of a second, a launch
/// may take five seconds and is followed by five of rest.
pub proof fn law_fixed_launch_times()
    ensures
        READINESS_TIMEOUT == 100_000_000,
        LAUNCH_TIMEOUT == 5_000_000_000,
        RETRY_COOLDOWN == 5_000_000_000,
{
}

} // verus!
