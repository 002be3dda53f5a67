//! Stopping services: the scan for idle ones, and the cleanup when the gateway
//! shuts down.
//!
//! Times are nanoseconds on a clock that never goes back.
use vstd::prelude::*;

use crate::document;
use crate::lifecycle::{
    self, ServiceLifecycle, StopAttempt, StopCheckOutcome, StopCommandSpec, StopResult,
};
use crate::proxy::{self, RousedProxy, ServiceRoute};
use crate::text;
use crate::wake::{self, LaunchState, WakeTarget, RETRY_COOLDOWN};

verus! {

/// How long requests and launches may take to drain when the gateway shuts down.
pub const DRAIN_TIMEOUT: u128 = 5_000_000_000;

/// How long the gateway waits for the cleanup as a whole.
pub const CLEANUP_TIMEOUT: u128 = 20_000_000_000;

/// What has become of a service since the gateway shuts down.
#[derive(Clone, Copy, Debug, PartialEq, Eq, Structural)]
pub enum CleanupPhase {
    /// It may still be stopped.
    Waiting,
    /// It has been stopped or is left running.
    Finished,
}

/// Looks after the services of a gateway.
pub struct IdleMonitor {
    /// When the shutdown was noticed.
    pub shutdown_started: Option<u128>,
    pub phases: Vec<CleanupPhase>,
    /// How many attempts to stop are under way, check and stop command included.
    pub running: Vec<usize>,
}

/// An attempt to stop that is to be carried out.
pub struct StopOrder {
    pub route: usize,
    pub attempt: StopAttempt,
}

/// Whether the monitor looks after the services of the gateway.
pub open spec fn watches(monitor: IdleMonitor, proxy: RousedProxy) -> bool {
    monitor.phases@.len() == proxy.routes@.len() && monitor.running@.len() == proxy.routes@.len()
}

/// Whether a service has nothing left to do: no request that could still become
/// its own, none in flight, and no launch.
pub open spec fn is_quiescent(proxy: RousedProxy, route: int) -> bool {
    &&& proxy.request_gate.admitted == 0
    &&& proxy.routes@[route].lifecycle.state.in_flight == 0
    &&& proxy.routes@[route].wake.state != wake::LaunchState::Launching
}

/// Whether nothing that a service had left to do took longer than the drain time: the
/// last admission was given back, the last request completed and the last launch
/// finished within it.
pub open spec fn has_drained_in_time(proxy: RousedProxy, route: int, started: u128) -> bool {
    &&& is_quiescent(proxy, route)
    &&& lifecycle::elapsed(proxy.request_gate.last_released, started) <= DRAIN_TIMEOUT
    &&& lifecycle::elapsed(proxy.routes@[route].lifecycle.state.last_completed, started)
        <= DRAIN_TIMEOUT
    &&& proxy.routes@[route].wake.state matches wake::LaunchState::CoolingDownUntil(until)
        ==> lifecycle::elapsed(until, started) <= DRAIN_TIMEOUT + wake::RETRY_COOLDOWN
}

/// What the cleanup does with a service.
pub enum CleanupAction {
    /// Nothing now.
    Wait,
    /// It is to be stopped.
    Stop,
    /// It did not drain in time and is left running.
    GiveUp,
}

/// What the cleanup does with a service at that time.
pub open spec fn cleanup_action(
    monitor: IdleMonitor,
    proxy: RousedProxy,
    route: int,
    started: u128,
    now: u128,
) -> CleanupAction {
    if monitor.phases@[route] == CleanupPhase::Finished || monitor.running@[route] > 0 {
        CleanupAction::Wait
    } else if has_drained_in_time(proxy, route, started) {
        CleanupAction::Stop
    } else if lifecycle::elapsed(now, started) > DRAIN_TIMEOUT {
        CleanupAction::GiveUp
    } else {
        CleanupAction::Wait
    }
}

/// Whether the scan orders a stop of a service.
pub open spec fn orders_stop(
    monitor: IdleMonitor,
    proxy: RousedProxy,
    route: int,
    now: u128,
) -> bool {
    if proxy.request_gate.closed {
        let started = match monitor.shutdown_started {
            Some(started) => started,
            None => now,
        };
        cleanup_action(monitor, proxy, route, started, now) is Stop
    } else {
        lifecycle::may_attempt_stop(
            proxy.routes@[route].lifecycle.state,
            proxy.routes@[route].lifecycle.idle_timeout,
            now,
        )
    }
}

/// Whether the scan gives a service up.
pub open spec fn gives_up(
    monitor: IdleMonitor,
    proxy: RousedProxy,
    route: int,
    now: u128,
) -> bool {
    proxy.request_gate.closed && monitor.shutdown_started is Some && cleanup_action(
        monitor,
        proxy,
        route,
        monitor.shutdown_started->0,
        now,
    ) is GiveUp
}

/// A route of which a stop was ordered.
pub open spec fn with_attempt(route: ServiceRoute) -> ServiceRoute {
    ServiceRoute {
        lifecycle: ServiceLifecycle {
            state: lifecycle::LifecycleState {
                attempt_in_progress: true,
                ..route.lifecycle.state
            },
            ..route.lifecycle
        },
        ..route
    }
}

/// An order that fits the route it is for.
pub open spec fn is_order_for(order: StopOrder, route: ServiceRoute, shutdown: bool) -> bool {
    &&& order.attempt.generation == route.lifecycle.state.generation
    &&& document::command_view(order.attempt.can_stop_command)
        == document::command_view(route.lifecycle.can_stop_command)
    &&& order.attempt.shutdown == shutdown
}

/// The monitor and the gateway after a scan of the first routes.
pub open spec fn is_scanned(
    before: IdleMonitor,
    gateway_before: RousedProxy,
    after: IdleMonitor,
    gateway_after: RousedProxy,
    orders: Seq<StopOrder>,
    upto: int,
    now: u128,
) -> bool {
    &&& watches(after, gateway_after)
    &&& gateway_after.routes@.len() == gateway_before.routes@.len()
    &&& gateway_after.request_gate == gateway_before.request_gate
    &&& gateway_after.listener_port == gateway_before.listener_port
    &&& after.shutdown_started == if gateway_before.request_gate.closed
        && before.shutdown_started is None {
        Some(now)
    } else {
        before.shutdown_started
    }
    &&& forall|i: int|
        0 <= i < gateway_before.routes@.len() ==> {
            let ordered = i < upto && orders_stop(before, gateway_before, i, now);
            let given_up = i < upto && gives_up(before, gateway_before, i, now);
            &&& #[trigger] gateway_after.routes@[i] == if ordered {
                with_attempt(gateway_before.routes@[i])
            } else {
                gateway_before.routes@[i]
            }
            &&& after.running@[i] == before.running@[i] + if ordered {
                1int
            } else {
                0int
            }
            &&& after.phases@[i] == if given_up {
                CleanupPhase::Finished
            } else {
                before.phases@[i]
            }
        }
    &&& forall|k: int|
        0 <= k < orders.len() ==> {
            let i = (#[trigger] orders[k]).route as int;
            &&& i < upto
            &&& orders_stop(before, gateway_before, i, now)
            &&& is_order_for(orders[k], gateway_before.routes@[i], gateway_before.request_gate.closed)
        }
    &&& forall|i: int|
        0 <= i < upto && orders_stop(before, gateway_before, i, now) ==> has_order(orders, i)
    &&& forall|j: int, k: int|
        0 <= j < k < orders.len() ==> (#[trigger] orders[j]).route < (#[trigger] orders[k]).route
}

/// Whether one of the orders is for the route.
pub open spec fn has_order(orders: Seq<StopOrder>, route: int) -> bool {
    exists|k: int| 0 <= k < orders.len() && (#[trigger] orders[k]).route == route
}

impl RousedProxy {
    /// A monitor for the services of this gateway.
    pub fn idle_monitor(&self) -> (monitor: IdleMonitor)
        ensures
            watches(monitor, *self),
            monitor.shutdown_started is None,
            forall|i: int|
                0 <= i < self.routes@.len() ==> #[trigger] monitor.phases@[i]
                    == CleanupPhase::Waiting,
            forall|i: int| 0 <= i < self.routes@.len() ==> #[trigger] monitor.running@[i] == 0,
    {
        let mut phases: Vec<CleanupPhase> = Vec::new();
        let mut running: Vec<usize> = Vec::new();
        for n in 0..self.routes.len()
            invariant
                phases@.len() == n,
                running@.len() == n,
                forall|i: int| 0 <= i < n ==> #[trigger] phases@[i] == CleanupPhase::Waiting,
                forall|i: int| 0 <= i < n ==> #[trigger] running@[i] == 0,
        {
            phases.push(CleanupPhase::Waiting);
            running.push(0);
        }
        IdleMonitor { shutdown_started: None, phases, running }
    }
}

fn drained_in_time(proxy: &RousedProxy, route: usize, started: u128) -> (r: bool)
    requires
        route < proxy.routes@.len(),
    ensures
        r == has_drained_in_time(*proxy, route as int, started),
{
    let service = &proxy.routes[route];
    let launch_drained = match service.wake.state {
        LaunchState::Eligible => true,
        LaunchState::Launching => false,
        LaunchState::CoolingDownUntil(until) => lifecycle::elapsed_since(until, started)
            <= DRAIN_TIMEOUT + RETRY_COOLDOWN,
    };
    proxy.request_gate.admitted == 0 && service.lifecycle.state.in_flight == 0 && launch_drained
        && lifecycle::elapsed_since(proxy.request_gate.last_released, started) <= DRAIN_TIMEOUT
        && lifecycle::elapsed_since(service.lifecycle.state.last_completed, started)
        <= DRAIN_TIMEOUT
}

fn action_for(
    monitor: &IdleMonitor,
    proxy: &RousedProxy,
    route: usize,
    started: u128,
    now: u128,
) -> (action: CleanupAction)
    requires
        watches(*monitor, *proxy),
        route < proxy.routes@.len(),
    ensures
        action == cleanup_action(*monitor, *proxy, route as int, started, now),
{
    if monitor.phases[route] == CleanupPhase::Finished || monitor.running[route] > 0 {
        CleanupAction::Wait
    } else if drained_in_time(proxy, route, started) {
        CleanupAction::Stop
    } else if now >= started && now - started > DRAIN_TIMEOUT {
        CleanupAction::GiveUp
    } else {
        CleanupAction::Wait
    }
}

impl IdleMonitor {
    /// Looks at every service and orders the stops that are due: of those that
    /// have been idle long enough or, once no request is let in any more, of those
    /// that have drained. A service that has not drained in time is given up.
    pub fn scan_at(&mut self, proxy: &mut RousedProxy, now: u128) -> (orders: Vec<StopOrder>)
        requires
            watches(*old(self), *old(proxy)),
            forall|i: int|
                0 <= i < old(self).running@.len() ==> #[trigger] old(self).running@[i]
                    < usize::MAX,
        ensures
            is_scanned(
                *old(self),
                *old(proxy),
                *final(self),
                *final(proxy),
                orders@,
                old(proxy).routes@.len() as int,
                now,
            ),
            proxy::stays_closed(*old(proxy), *final(proxy)),
    {
        let ghost before = *self;
        let ghost gateway_before = *proxy;
        let closed = proxy.request_gate.closed;
        let started: u128 = match self.shutdown_started {
            Some(started) => started,
            None => now,
        };
        if closed {
            self.shutdown_started = Some(started);
        }
        let mut orders: Vec<StopOrder> = Vec::new();
        let count = proxy.routes.len();
        for i in 0..count
            invariant
                count == gateway_before.routes@.len(),
                watches(before, gateway_before),
                forall|j: int|
                    0 <= j < before.running@.len() ==> #[trigger] before.running@[j] < usize::MAX,
                closed == gateway_before.request_gate.closed,
                started == match before.shutdown_started {
                    Some(started) => started,
                    None => now,
                },
                proxy.routes@.len() == gateway_before.routes@.len(),
                is_scanned(before, gateway_before, *self, *proxy, orders@, i as int, now),
        {
            let ghost held = orders@;
            assert(proxy.routes@[i as int] == gateway_before.routes@[i as int]);
            let attempt = if closed {
                match action_for(self, proxy, i, started, now) {
                    CleanupAction::Wait => None,
                    CleanupAction::Stop => Some(
                        proxy.routes[i].lifecycle.begin_shutdown_attempt(),
                    ),
                    CleanupAction::GiveUp => {
                        self.phases.set(i, CleanupPhase::Finished);
                        None
                    },
                }
            } else {
                proxy.routes[i].lifecycle.begin_stop_attempt_at(now)
            };
            if let Some(attempt) = attempt {
                let others = self.running[i];
                assert(others == before.running@[i as int]);
                self.running.set(i, others + 1);
                orders.push(StopOrder { route: i, attempt });
                assert(orders@.last().route == i);
                assert(has_order(orders@, i as int));
            }
            assert forall|j: int|
                0 <= j < i + 1 && orders_stop(before, gateway_before, j, now) implies has_order(
                orders@,
                j,
            ) by {
                if j < i {
                    assert(has_order(held, j));
                    let k = choose|k: int| 0 <= k < held.len() && (#[trigger] held[k]).route == j;
                    assert(orders@[k].route == j);
                }
            }
        }
        orders
    }
}

impl RousedProxy {
    /// The command that asks launchd to stop the service of a route.
    pub fn stop_command_spec(&self, route: usize) -> (spec: StopCommandSpec)
        requires
            route < self.routes@.len(),
        ensures
            spec.program@ == wake::LAUNCHCTL_PATH@,
            spec.arguments@[0]@ == "kill"@,
            spec.arguments@[1]@ == "SIGTERM"@,
            spec.arguments@[2]@ == wake::job_target(
                self.routes@[route as int].lifecycle.user_id,
                self.routes@[route as int].lifecycle.launchd_label@,
            ),
    {
        self.routes[route].lifecycle.stop_command_spec()
    }

    /// Carries an ordered stop out, if its check allowed it and nothing has
    /// happened since it was ordered. On any other input `start_stop` need not be
    /// callable, and it is not called.
    pub fn conclude_stop_at<F: FnOnce() -> bool>(
        &mut self,
        order: &StopOrder,
        outcome: StopCheckOutcome,
        now: u128,
        start_stop: F,
    ) -> (result: StopResult)
        requires
            order.route < old(self).routes@.len(),
            lifecycle::starts_stop(
                outcome,
                old(self).routes@[order.route as int].lifecycle.state,
                old(self).routes@[order.route as int].lifecycle.idle_timeout,
                order.attempt,
                old(self).routes@[order.route as int].wake,
                now,
            ) ==> start_stop.requires(()),
        ensures
            ({
                let before = old(self).routes@[order.route as int];
                let holds = lifecycle::starts_stop(
                    outcome,
                    before.lifecycle.state,
                    before.lifecycle.idle_timeout,
                    order.attempt,
                    before.wake,
                    now,
                );
                let stopped = result == StopResult::Stopped;
                &&& match outcome {
                    StopCheckOutcome::Allowed => result == StopResult::Stopped || result
                        == StopResult::Discarded,
                    StopCheckOutcome::Vetoed => result == StopResult::Vetoed,
                    StopCheckOutcome::Failed => result == StopResult::Failed,
                    StopCheckOutcome::TimedOut => result == StopResult::TimedOut,
                }
                &&& !holds ==> !stopped
                &&& holds ==> start_stop.ensures((), stopped)
                &&& final(self).routes@ == old(self).routes@.update(
                    order.route as int,
                    ServiceRoute {
                        lifecycle: ServiceLifecycle {
                            state: if outcome == StopCheckOutcome::Allowed {
                                lifecycle::after_allowed(
                                    before.lifecycle.state,
                                    holds,
                                    stopped,
                                    now,
                                )
                            } else {
                                lifecycle::after_veto(
                                    before.lifecycle.state,
                                    order.attempt.generation,
                                    now,
                                )
                            },
                            ..before.lifecycle
                        },
                        wake: if stopped {
                            WakeTarget {
                                state: wake::LaunchState::Eligible,
                                ..before.wake
                            }
                        } else {
                            before.wake
                        },
                        ..before
                    },
                )
                &&& final(self).request_gate == old(self).request_gate
                &&& final(self).listener_port == old(self).listener_port
            }),
            proxy::stays_closed(*old(self), *final(self)),
    {
        let route = &mut self.routes[order.route];
        route.lifecycle.conclude_stop_attempt_at(
            &mut route.wake,
            &order.attempt,
            outcome,
            now,
            start_stop,
        )
    }
}

impl IdleMonitor {
    /// Notes that an attempt has ended, its stop command included. Once no request
    /// is let in any more, the service is done with when no other attempt at it runs.
    pub fn attempt_ended(&mut self, proxy: &RousedProxy, route: usize)
        requires
            watches(*old(self), *proxy),
            route < proxy.routes@.len(),
            old(self).running@[route as int] > 0,
        ensures
            final(self).shutdown_started == old(self).shutdown_started,
            final(self).running@ == old(self).running@.update(
                route as int,
                (old(self).running@[route as int] - 1) as usize,
            ),
            final(self).phases@ == if proxy.request_gate.closed
                && old(self).running@[route as int] == 1 {
                old(self).phases@.update(route as int, CleanupPhase::Finished)
            } else {
                old(self).phases@
            },
    {
        let others = self.running[route] - 1;
        self.running.set(route, others);
        if proxy.request_gate.closed && others == 0 {
            self.phases.set(route, CleanupPhase::Finished);
        }
    }

    /// Whether the cleanup is done with every service.
    pub fn cleanup_finished(&self) -> (r: bool)
        ensures
            r == forall|i: int|
                0 <= i < self.phases@.len() ==> #[trigger] self.phases@[i]
                    == CleanupPhase::Finished,
    {
        for i in 0..self.phases.len()
            invariant
                forall|j: int|
                    0 <= j < i ==> #[trigger] self.phases@[j] == CleanupPhase::Finished,
        {
            if self.phases[i] != CleanupPhase::Finished {
                return false;
            }
        }
        true
    }
}

/// Once the gateway shuts down a service is stopped once at most: not while an
/// attempt at it runs, and not after it has ended.
pub proof fn law_cleanup_stops_a_service_once(
    monitor: IdleMonitor,
    proxy: RousedProxy,
    route: int,
    now: u128,
)
    requires
        proxy.request_gate.closed,
        monitor.phases@[route] == CleanupPhase::Finished || monitor.running@[route] > 0,
    ensures
        !orders_stop(monitor, proxy, route, now),
        !gives_up(monitor, proxy, route, now),
{
}

/// A service with work left is not stopped when the gateway shuts down: not with
/// a request in flight, not during a launch, and not while an admitted request
/// could still become its own.
pub proof fn law_cleanup_spares_busy_services(
    monitor: IdleMonitor,
    proxy: RousedProxy,
    route: int,
    now: u128,
)
    requires
        proxy.request_gate.closed,
        proxy.routes@[route].lifecycle.state.in_flight > 0 || proxy.routes@[route].wake.state
            == wake::LaunchState::Launching || proxy.request_gate.admitted > 0,
    ensures
        !orders_stop(monitor, proxy, route, now),
{
}

/// A service that has drained in time is stopped by the next scan when the gateway
/// shuts down, however short it has been idle, whatever an earlier check said, and
/// also where the drain time is over when the scan comes.
pub proof fn law_cleanup_does_not_wait_for_idleness(
    monitor: IdleMonitor,
    proxy: RousedProxy,
    route: int,
    now: u128,
)
    requires
        proxy.request_gate.closed,
        monitor.phases@[route] == CleanupPhase::Waiting,
        monitor.running@[route] == 0,
        has_drained_in_time(
            proxy,
            route,
            match monitor.shutdown_started {
                Some(started) => started,
                None => now,
            },
        ),
    ensures
        orders_stop(monitor, proxy, route, now),
{
}

/// A service that has not drained in time is left running: from the end of the drain
/// time on no scan orders a stop of it, and the first one gives it up.
pub proof fn law_late_service_is_left_running(
    monitor: IdleMonitor,
    proxy: RousedProxy,
    route: int,
    started: u128,
    now: u128,
)
    requires
        proxy.request_gate.closed,
        monitor.shutdown_started == Some(started),
        monitor.phases@[route] == CleanupPhase::Waiting,
        monitor.running@[route] == 0,
        lifecycle::elapsed(now, started) > DRAIN_TIMEOUT,
        !has_drained_in_time(proxy, route, started),
    ensures
        !orders_stop(monitor, proxy, route, now),
        gives_up(monitor, proxy, route, now),
{
}

/// After the drain time a scan leaves no service undecided: an attempt at it runs,
/// or it is finished.
pub proof fn law_cleanup_ends(
    before: IdleMonitor,
    gateway_before: RousedProxy,
    after: IdleMonitor,
    gateway_after: RousedProxy,
    orders: Seq<StopOrder>,
    now: u128,
    route: int,
)
    requires
        is_scanned(
            before,
            gateway_before,
            after,
            gateway_after,
            orders,
            gateway_before.routes@.len() as int,
            now,
        ),
        gateway_before.request_gate.closed,
        before.shutdown_started is Some,
        lifecycle::elapsed(now, before.shutdown_started->0) > DRAIN_TIMEOUT,
        0 <= route < gateway_before.routes@.len(),
    ensures
        after.phases@[route] == CleanupPhase::Finished || after.running@[route] > 0,
{
    assert(gateway_after.routes@[route].host == gateway_before.routes@[route].host);
}

/// A stop that was decided at shutdown is not started if a request has become
/// active or a launch runs meanwhile, whatever its check said.
pub proof fn law_shutdown_stop_is_rechecked(
    route: ServiceRoute,
    attempt: StopAttempt,
    outcome: StopCheckOutcome,
    now: u128,
)
    requires
        attempt.shutdown,
        route.lifecycle.state.generation != attempt.generation
            || route.lifecycle.state.in_flight > 0 || route.wake.state
            == wake::LaunchState::Launching,
    ensures
        !lifecycle::starts_stop(
            outcome,
            route.lifecycle.state,
            route.lifecycle.idle_timeout,
            attempt,
            route.wake,
            now,
        ),
{
}

/// Whether one of the orders is to stop a service: made at gateway shutdown or not, for
/// what the service is at that time, with the check that is configured for it.
pub open spec fn orders_to_stop(
    orders: Seq<StopOrder>,
    route: int,
    service: ServiceLifecycle,
    shutdown: bool,
) -> bool {
    exists|k: int|
        0 <= k < orders.len() && (#[trigger] orders[k]).route == route && orders[k].attempt.shutdown
            == shutdown && orders[k].attempt.generation == service.state.generation
            && (orders[k].attempt.can_stop_command is Some <==> service.can_stop_command is Some)
            && (orders[k].attempt.can_stop_command matches Some(command) ==> command@.len()
            == service.can_stop_command->0@.len() && forall|i: int|
            0 <= i < command@.len() ==> (#[trigger] command@[i])@
                == service.can_stop_command->0@[i]@)
}

proof fn lemma_order_for(
    orders: Seq<StopOrder>,
    route: int,
    k: int,
    service: ServiceRoute,
    shutdown: bool,
)
    requires
        0 <= k < orders.len(),
        orders[k].route == route,
        is_order_for(orders[k], service, shutdown),
    ensures
        orders_to_stop(orders, route, service.lifecycle, shutdown),
{
    if let Some(command) = orders[k].attempt.can_stop_command {
        let all = text::texts(command@);
        let own = text::texts(service.lifecycle.can_stop_command->0@);
        assert(all == own);
        assert(all.len() == own.len());
        assert forall|i: int| 0 <= i < command@.len() implies (#[trigger] command@[i])@
            == service.lifecycle.can_stop_command->0@[i]@ by {
            assert(all[i] == command@[i]@);
            assert(own[i] == service.lifecycle.can_stop_command->0@[i]@);
        }
    }
}

/// When the gateway shuts down a service is ordered to stop by the next scan exactly
/// when it has not been dealt with and no attempt at it runs, no admitted request and no
/// request of its own is left and no launch runs, and the last admission was given back,
/// its last request ended and its last launch finished at most five seconds after the
/// shutdown was noticed. It does not matter how long it has been idle, what an earlier
/// check said, or whether it has one. A service that is not ordered to stop is given up
/// once the five seconds are over.
pub proof fn law_drained_service_gets_its_stop(
    monitor: &mut IdleMonitor,
    proxy: &mut RousedProxy,
    now: u128,
    orders: Vec<StopOrder>,
    started: u128,
    i: int,
)
    requires
        call_ensures(IdleMonitor::scan_at, (monitor, proxy, now), orders),
        old(proxy).request_gate.closed,
        old(monitor).phases@.len() == old(proxy).routes@.len(),
        old(monitor).running@.len() == old(proxy).routes@.len(),
        old(monitor).shutdown_started == Some(started) || old(monitor).shutdown_started is None
            && started == now,
        started <= now,
        0 <= i < old(proxy).routes@.len(),
    ensures
        final(monitor).shutdown_started == Some(started),
        ({
            let before = old(proxy).routes@[i];
            let undecided = old(monitor).phases@[i] == CleanupPhase::Waiting && old(monitor).running@[i] == 0;
            let drained = {
                &&& old(proxy).request_gate.admitted == 0
                &&& before.lifecycle.state.in_flight == 0
                &&& before.wake.state != LaunchState::Launching
                &&& old(proxy).request_gate.last_released <= started + 5_000_000_000
                &&& before.lifecycle.state.last_completed <= started + 5_000_000_000
                &&& before.wake.state matches LaunchState::CoolingDownUntil(until) ==> until
                    <= started + 10_000_000_000
            };
            &&& undecided && drained ==> {
                &&& orders_to_stop(orders@, i, before.lifecycle, true)
                &&& final(monitor).running@[i] == 1
                &&& final(monitor).phases@[i] == CleanupPhase::Waiting
                &&& final(proxy).routes@[i].lifecycle.state.attempt_in_progress
            }
            &&& !(undecided && drained) ==> {
                &&& forall|k: int| 0 <= k < orders@.len() ==> (#[trigger] orders@[k]).route != i
                &&& final(monitor).running@[i] == old(monitor).running@[i]
                &&& final(proxy).routes@[i] == before
            }
            &&& undecided && !drained && now > started + 5_000_000_000 ==> final(monitor).phases@[i] == CleanupPhase::Finished
            &&& undecided && !drained && now <= started + 5_000_000_000 ==> final(monitor).phases@[i] == CleanupPhase::Waiting
            &&& !undecided ==> final(monitor).phases@[i] == old(monitor).phases@[i]
            &&& final(proxy).routes@[i].wake == before.wake
            &&& final(proxy).routes@[i].host == before.host
            &&& final(proxy).routes@[i].lifecycle.state.generation
                == before.lifecycle.state.generation
            &&& final(proxy).routes@[i].lifecycle.state.in_flight
                == before.lifecycle.state.in_flight
            &&& final(proxy).routes@[i].lifecycle.idle_timeout == before.lifecycle.idle_timeout
            &&& final(proxy).request_gate == old(proxy).request_gate
        }),
{
    let before = old(proxy).routes@[i];
    let ordered = orders_stop(*old(monitor), *old(proxy), i, now);
    let scanned = final(proxy).routes@[i];
    assert(scanned == if ordered {
        with_attempt(before)
    } else {
        before
    });
    if ordered {
        assert(has_order(orders@, i));
        let k = choose|k: int| 0 <= k < orders@.len() && (#[trigger] orders@[k]).route == i;
        lemma_order_for(orders@, i, k, before, true);
    }
}

/// While the gateway runs, a scan orders a service to stop exactly when nothing of it is
/// in flight, no attempt at it runs, its whole idle time has passed, none was started
/// since the last activity, and the last check that did not allow it is thirty seconds
/// old. Nothing is given up.
pub proof fn law_idle_service_gets_its_stop(
    monitor: &mut IdleMonitor,
    proxy: &mut RousedProxy,
    now: u128,
    orders: Vec<StopOrder>,
    i: int,
)
    requires
        call_ensures(IdleMonitor::scan_at, (monitor, proxy, now), orders),
        !old(proxy).request_gate.closed,
        0 <= i < old(proxy).routes@.len(),
        old(proxy).routes@[i].lifecycle.idle_timeout > 0,
    ensures
        ({
            let before = old(proxy).routes@[i];
            let state = before.lifecycle.state;
            let due = {
                &&& state.in_flight == 0
                &&& !state.attempt_in_progress
                &&& state.idle_since + before.lifecycle.idle_timeout <= now
                &&& state.stop_attempted_generation != Some(state.generation)
                &&& state.last_check_finished matches Some(finished) ==> finished + 30_000_000_000
                    <= now
            };
            &&& due ==> {
                &&& orders_to_stop(orders@, i, before.lifecycle, false)
                &&& final(monitor).running@[i] == old(monitor).running@[i] + 1
                &&& final(proxy).routes@[i].lifecycle.state.attempt_in_progress
            }
            &&& !due ==> {
                &&& forall|k: int| 0 <= k < orders@.len() ==> (#[trigger] orders@[k]).route != i
                &&& final(monitor).running@[i] == old(monitor).running@[i]
                &&& final(proxy).routes@[i] == before
            }
            &&& final(monitor).phases@[i] == old(monitor).phases@[i]
            &&& final(monitor).shutdown_started == old(monitor).shutdown_started
            &&& final(proxy).routes@[i].wake == before.wake
            &&& final(proxy).routes@[i].lifecycle.state.generation == state.generation
            &&& final(proxy).routes@[i].lifecycle.state.in_flight == state.in_flight
            &&& final(proxy).routes@[i].lifecycle.state.idle_since == state.idle_since
            &&& final(proxy).request_gate == old(proxy).request_gate
        }),
{
    let before = old(proxy).routes@[i];
    let ordered = orders_stop(*old(monitor), *old(proxy), i, now);
    let scanned = final(proxy).routes@[i];
    assert(scanned == if ordered {
        with_attempt(before)
    } else {
        before
    });
    if ordered {
        assert(has_order(orders@, i));
        let k = choose|k: int| 0 <= k < orders@.len() && (#[trigger] orders@[k]).route == i;
        lemma_order_for(orders@, i, k, before, false);
    }
}

/// A scan orders a service to stop once at most, and orders nothing of what is no
/// service.
pub proof fn law_one_order_for_a_service(
    monitor: &mut IdleMonitor,
    proxy: &mut RousedProxy,
    now: u128,
    orders: Vec<StopOrder>,
    j: int,
    k: int,
)
    requires
        call_ensures(IdleMonitor::scan_at, (monitor, proxy, now), orders),
        0 <= j < orders@.len(),
        0 <= k < orders@.len(),
    ensures
        orders@[j].route == orders@[k].route ==> j == k,
        orders@[j].route < old(proxy).routes@.len(),
        final(proxy).routes@.len() == old(proxy).routes@.len(),
{
}

/// From shutdown to stop: a gateway with a service that has nothing to do orders it to
/// stop in the first scan after the shutdown, and in no later one, neither while the
/// attempt runs nor after it has ended.
pub proof fn law_quiet_service_is_stopped_at_shutdown(
    made: IdleMonitor,
    proxy: &mut RousedProxy,
    monitor: &mut IdleMonitor,
    now: u128,
    orders: Vec<StopOrder>,
    i: int,
    second: &mut IdleMonitor,
    then: &mut RousedProxy,
    soon: u128,
    repeated: Vec<StopOrder>,
    third: &mut IdleMonitor,
    fourth: &mut IdleMonitor,
    after: &mut RousedProxy,
    later: u128,
    again: Vec<StopOrder>,
    finished: bool,
)
    requires
        call_ensures(RousedProxy::idle_monitor, (&*old(proxy),), made),
        *old(monitor) == made,
        old(proxy).request_gate.closed,
        old(proxy).request_gate.admitted == 0,
        old(proxy).request_gate.last_released <= now,
        0 <= i < old(proxy).routes@.len(),
        old(proxy).routes@[i].lifecycle.state.in_flight == 0,
        old(proxy).routes@[i].lifecycle.state.last_completed <= now,
        old(proxy).routes@[i].wake.state == LaunchState::Eligible,
        call_ensures(IdleMonitor::scan_at, (monitor, proxy, now), orders),
        *old(second) == *final(monitor),
        *old(then) == *final(proxy),
        call_ensures(IdleMonitor::scan_at, (second, then, soon), repeated),
        *old(third) == *final(second),
        call_ensures(
            IdleMonitor::attempt_ended,
            (third, &*final(then), i as usize),
            (),
        ),
        *old(fourth) == *final(third),
        *old(after) == *final(then),
        call_ensures(IdleMonitor::scan_at, (fourth, after, later), again),
        call_ensures(IdleMonitor::cleanup_finished, (&*final(third),), finished),
        old(proxy).routes@.len() <= usize::MAX,
    ensures
        orders_to_stop(orders@, i, old(proxy).routes@[i].lifecycle, true),
        forall|k: int| 0 <= k < repeated@.len() ==> (#[trigger] repeated@[k]).route != i,
        forall|k: int| 0 <= k < again@.len() ==> (#[trigger] again@[k]).route != i,
        old(proxy).routes@.len() == 1 ==> finished,
{
    let before = old(proxy).routes@[i];
    assert(orders_stop(*old(monitor), *old(proxy), i, now));
    assert(has_order(orders@, i));
    let k = choose|k: int| 0 <= k < orders@.len() && (#[trigger] orders@[k]).route == i;
    lemma_order_for(orders@, i, k, before, true);
    assert(final(proxy).routes@[i] == with_attempt(before));
    assert(final(monitor).running@[i] == 1);
    let scanned = final(then).routes@[i];
    assert(!orders_stop(*old(second), *old(then), i, soon));
    assert(scanned == old(then).routes@[i]);
    assert(final(second).running@[i] == 1);
    assert(final(third).phases@[i] == CleanupPhase::Finished);
    let last = final(after).routes@[i];
    assert(!orders_stop(*old(fourth), *old(after), i, later));
    if old(proxy).routes@.len() == 1 {
        assert(final(third).phases@.len() == 1);
        assert(final(third).phases@[0] == CleanupPhase::Finished);
    }
}

/// A new monitor has one entry for each service, with nothing decided and nothing under
/// way.
pub proof fn law_monitor_begins_undecided(proxy: RousedProxy, monitor: IdleMonitor, i: int)
    requires
        call_ensures(RousedProxy::idle_monitor, (&proxy,), monitor),
    ensures
        monitor.phases@.len() == proxy.routes@.len(),
        monitor.running@.len() == proxy.routes@.len(),
        monitor.shutdown_started is None,
        0 <= i < proxy.routes@.len() ==> monitor.phases@[i] == CleanupPhase::Waiting
            && monitor.running@[i] == 0,
{
    if 0 <= i < proxy.routes@.len() {
        assert(monitor.phases@[i] == CleanupPhase::Waiting);
        assert(monitor.running@[i] == 0);
    }
}

/// An attempt that has ended is no longer counted. After the shutdown its service is done
/// with when it was the last; the other services are as they were.
pub proof fn law_ended_attempt_finishes_a_service(
    monitor: &mut IdleMonitor,
    proxy: RousedProxy,
    route: usize,
    j: int,
)
    requires
        call_ensures(IdleMonitor::attempt_ended, (monitor, &proxy, route), ()),
        old(monitor).phases@.len() == proxy.routes@.len(),
        old(monitor).running@.len() == proxy.routes@.len(),
        route < proxy.routes@.len(),
        old(monitor).running@[route as int] > 0,
    ensures
        final(monitor).running@[route as int] == old(monitor).running@[route as int] - 1,
        proxy.request_gate.closed && old(monitor).running@[route as int] == 1 ==> final(monitor).phases@[route as int] == CleanupPhase::Finished,
        !proxy.request_gate.closed || old(monitor).running@[route as int] > 1 ==> final(monitor).phases@ == old(monitor).phases@,
        0 <= j < proxy.routes@.len() && j != route ==> final(monitor).running@[j] == old(monitor).running@[j] && final(monitor).phases@[j] == old(monitor).phases@[j],
        final(monitor).shutdown_started == old(monitor).shutdown_started,
{
}

/// The cleanup is over exactly when no service is undecided.
pub proof fn law_cleanup_is_over_when_all_are_decided(monitor: IdleMonitor, r: bool, i: int)
    requires
        call_ensures(IdleMonitor::cleanup_finished, (&monitor,), r),
    ensures
        r && 0 <= i < monitor.phases@.len() ==> monitor.phases@[i] == CleanupPhase::Finished,
        0 <= i < monitor.phases@.len() && monitor.phases@[i] == CleanupPhase::Waiting ==> !r,
        (forall|j: int|
            0 <= j < monitor.phases@.len() ==> #[trigger] monitor.phases@[j]
                == CleanupPhase::Finished) ==> r,
{
}

/// An ordered stop is started exactly when its check allowed it, there was no activity of
/// the service since, nothing of it is in flight, and its whole idle time has passed or,
/// at gateway shutdown, no launch of it runs. Then it may be launched anew at once. The
/// other services are as they were.
pub proof fn law_ordered_stop_is_started<F: FnOnce() -> bool>(
    proxy: &mut RousedProxy,
    order: StopOrder,
    outcome: StopCheckOutcome,
    now: u128,
    start_stop: F,
    result: StopResult,
)
    requires
        call_ensures(
            RousedProxy::conclude_stop_at::<F>,
            (proxy, &order, outcome, now, start_stop),
            result,
        ),
        order.route < old(proxy).routes@.len(),
        old(proxy).routes@[order.route as int].lifecycle.idle_timeout > 0,
    ensures
        ({
            let before = old(proxy).routes@[order.route as int];
            let after = final(proxy).routes@[order.route as int];
            let state = before.lifecycle.state;
            let in_order = {
                &&& outcome == StopCheckOutcome::Allowed
                &&& state.generation == order.attempt.generation
                &&& state.in_flight == 0
                &&& order.attempt.shutdown ==> before.wake.state != LaunchState::Launching
                &&& !order.attempt.shutdown ==> state.idle_since + before.lifecycle.idle_timeout
                    <= now
            };
            &&& in_order ==> start_stop.ensures((), result == StopResult::Stopped)
            &&& !in_order ==> result != StopResult::Stopped
            &&& result == StopResult::Stopped ==> after.wake.state == LaunchState::Eligible
                && after.lifecycle.state.stop_attempted_generation == Some(state.generation)
            &&& result != StopResult::Stopped ==> after.wake == before.wake
                && after.lifecycle.state.stop_attempted_generation
                == state.stop_attempted_generation
            &&& result == StopResult::Vetoed <==> outcome == StopCheckOutcome::Vetoed
            &&& result == StopResult::Failed <==> outcome == StopCheckOutcome::Failed
            &&& result == StopResult::TimedOut <==> outcome == StopCheckOutcome::TimedOut
            &&& outcome != StopCheckOutcome::Allowed && state.generation
                == order.attempt.generation && state.in_flight == 0
                ==> after.lifecycle.state.last_check_finished == Some(now)
            &&& in_order && result != StopResult::Stopped
                ==> after.lifecycle.state.last_check_finished == Some(now)
            &&& state.generation != order.attempt.generation || state.in_flight > 0
                ==> after.lifecycle.state.last_check_finished == state.last_check_finished
            &&& !after.lifecycle.state.attempt_in_progress
            &&& after.lifecycle.state.in_flight == state.in_flight
            &&& after.lifecycle.state.generation == state.generation
            &&& after.lifecycle.state.idle_since == state.idle_since
            &&& after.lifecycle.idle_timeout == before.lifecycle.idle_timeout
            &&& after.host == before.host
            &&& after.wake.upstream == before.wake.upstream
            &&& final(proxy).routes@.len() == old(proxy).routes@.len()
            &&& forall|j: int|
                0 <= j < old(proxy).routes@.len() && j != order.route ==> #[trigger] final(proxy).routes@[j] == old(proxy).routes@[j]
            &&& final(proxy).request_gate == old(proxy).request_gate
        }),
{
}

/// The job of a service, and no other, is sent the signal to terminate.
pub proof fn law_stop_command_names_the_service(
    proxy: RousedProxy,
    route: usize,
    spec: StopCommandSpec,
)
    requires
        call_ensures(RousedProxy::stop_command_spec, (&proxy, route), spec),
        route < proxy.routes@.len(),
    ensures
        spec.program@ == "/bin/launchctl"@,
        spec.arguments@[0]@ == "kill"@,
        spec.arguments@[1]@ == "SIGTERM"@,
        spec.arguments@[2]@ == "gui/"@ + text::decimal(
            proxy.routes@[route as int].lifecycle.user_id as nat,
        ) + "/"@ + proxy.routes@[route as int].lifecycle.launchd_label@,
{
}

/// The times that are fixed: requests and launches have five seconds to drain, and the
/// cleanup as a whole has twenty.
pub proof fn law_fixed_cleanup_times()
    ensures
        DRAIN_TIMEOUT == 5_000_000_000,
        CLEANUP_TIMEOUT == 20_000_000_000,
{
}

} // verus!
