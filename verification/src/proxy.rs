//! The gateway: routes, requests on their way through, and the shutdown.
//!
//! Times are nanoseconds on a clock that never goes back.
use vstd::prelude::*;

use crate::address::SocketAddress;
use crate::config::{self, Config, ServiceConfig};
use crate::document;
use crate::gate::{self, RequestAdmission, RequestGate};
use crate::headers::{
    self, has_field, header_values, insert_header, is_valid_websocket_request,
    is_valid_websocket_response, strip_request_hop_headers, strip_response_hop_headers,
    FieldsFull, RequestHead, ResponseHead,
};
use crate::host::{self, normalize_request_host};
use crate::lifecycle::{self, ServiceLease, ServiceLifecycle};
use crate::response::{
    self, loading_response, shutting_down_response, to_visible_text, unknown_host_response,
    LocalResponse,
};
use crate::text;
use crate::wake::{self, CommandSpec, WakeTarget};

verus! {

/// Nanoseconds in a second.
pub const SECOND: u128 = 1_000_000_000;

/// A configured service and what is known of it.
pub struct ServiceRoute {
    pub host: String,
    pub wake: WakeTarget,
    pub lifecycle: ServiceLifecycle,
}

/// The gateway.
pub struct RousedProxy {
    pub listener_port: u16,
    pub routes: Vec<ServiceRoute>,
    pub request_gate: RequestGate,
}

/// What shuts the gateway down.
pub struct GatewayShutdownHandle<'a> {
    pub request_gate: &'a mut RequestGate,
}

impl<'a> GatewayShutdownHandle<'a> {
    /// Starts the shutdown: from now on no request is let in. The handle stays
    /// that of the same gateway.
    pub fn begin_shutdown(&mut self)
        ensures
            *final(self).request_gate == gate::closed_gate(*old(self).request_gate),
            *final(final(self).request_gate) == *final(old(self).request_gate),
    {
        self.request_gate.close();
    }
}

/// One request on its way through the gateway.
pub struct RequestContext {
    pub route: Option<usize>,
    pub lease: Option<ServiceLease>,
    pub admission: Option<RequestAdmission>,
    pub rejected_for_shutdown: bool,
    pub websocket: bool,
}

/// The route of a service when the gateway starts.
pub open spec fn is_fresh_route(
    route: ServiceRoute,
    service: config::ServiceView,
    user_id: u32,
    now: u128,
) -> bool {
    &&& route.host@ == service.host
    &&& route.wake.upstream == service.upstream
    &&& route.wake.launchd_label@ == service.launchd_label
    &&& route.wake.user_id == user_id
    &&& route.wake.state == wake::LaunchState::Eligible
    &&& route.lifecycle.launchd_label@ == service.launchd_label
    &&& route.lifecycle.user_id == user_id
    &&& route.lifecycle.idle_timeout == service.idle_timeout_seconds * SECOND
    &&& document::command_view(route.lifecycle.can_stop_command) == service.can_stop_command
    &&& route.lifecycle.state == lifecycle::fresh_state(now)
}

fn fresh_route(service: &ServiceConfig, user_id: u32, now: u128) -> (route: ServiceRoute)
    ensures
        is_fresh_route(route, service@, user_id, now),
{
    let wake = WakeTarget::new(service.upstream(), service.launchd_label().to_owned(), user_id);
    let command = match service.can_stop_command() {
        Some(command) => Some(text::clone_texts(command)),
        None => None,
    };
    let lifecycle = ServiceLifecycle::new_at(
        service.launchd_label().to_owned(),
        user_id,
        service.idle_timeout_seconds() as u128 * SECOND,
        command,
        now,
    );
    ServiceRoute { host: service.host().to_owned(), wake, lifecycle }
}

impl RousedProxy {
    /// A gateway for a configuration: every service eligible for a launch and
    /// with a full idle period before it.
    pub fn new(config: &Config, user_id: u32, now: u128) -> (proxy: RousedProxy)
        ensures
            proxy.listener_port == config@.listen.port,
            !proxy.request_gate.closed,
            proxy.request_gate.admitted == 0,
            proxy.request_gate.last_released == 0,
            proxy.routes@.len() == config@.services.len(),
            forall|i: int|
                0 <= i < config@.services.len() ==> is_fresh_route(
                    #[trigger] proxy.routes@[i],
                    config@.services[i],
                    user_id,
                    now,
                ),
    {
        let services = config.services();
        let ghost views = config@.services;
        let mut routes: Vec<ServiceRoute> = Vec::new();
        for i in 0..services.len()
            invariant
                views == config::service_config_views(services@),
                routes@.len() == i,
                forall|j: int|
                    0 <= j < i ==> is_fresh_route(#[trigger] routes@[j], views[j], user_id, now),
        {
            assert(views[i as int] == services@[i as int]@);
            routes.push(fresh_route(&services[i], user_id, now));
        }
        RousedProxy {
            listener_port: config.listen().port,
            routes,
            request_gate: RequestGate::new(),
        }
    }

    /// What shuts the gateway down.
    pub fn shutdown_handle(&mut self) -> (handle: GatewayShutdownHandle<'_>)
        ensures
            *handle.request_gate == old(self).request_gate,
            *final(self) == (RousedProxy {
                request_gate: *final(handle.request_gate),
                ..*old(self)
            }),
    {
        GatewayShutdownHandle { request_gate: &mut self.request_gate }
    }
}

/// The hosts of the routes.
pub open spec fn route_hosts(routes: Seq<ServiceRoute>) -> Seq<Seq<char>> {
    routes.map_values(|route: ServiceRoute| route.host@)
}

/// The host that a request names, in its normal form.
pub open spec fn requested_host(
    fields: Map<Seq<char>, Seq<Seq<u8>>>,
    listener_port: u16,
) -> Option<Seq<char>> {
    let values = headers::values_of(fields, "host"@);
    if values.len() == 0 {
        None
    } else {
        match response::visible_text(values[0]) {
            Some(text) => host::normalized_authority(text, Some(listener_port)),
            None => None,
        }
    }
}

/// The route of a request.
pub open spec fn requested_route(
    proxy: RousedProxy,
    fields: Map<Seq<char>, Seq<Seq<u8>>>,
) -> Option<int> {
    match requested_host(fields, proxy.listener_port) {
        Some(host) => text::first_index(route_hosts(proxy.routes@), host),
        None => None,
    }
}

/// How many admissions a request holds.
pub open spec fn admissions_held(context: RequestContext) -> int {
    if context.admission is Some {
        1
    } else {
        0
    }
}

/// Admission when a request has given back what it holds of it.
pub open spec fn gate_without(
    gate: RequestGate,
    context: RequestContext,
    now: u128,
) -> RequestGate {
    if context.admission is Some {
        RequestGate { admitted: (gate.admitted - 1) as usize, last_released: now, ..gate }
    } else {
        gate
    }
}

/// How many leases on a route a request holds.
pub open spec fn leases_held(context: RequestContext, route: int) -> int {
    if context.lease is Some && !context.lease->0.released && context.route is Some
        && context.route->0 == route {
        1
    } else {
        0
    }
}

/// What a request holds is counted by the gateway that it passes through.
pub open spec fn is_counted(proxy: RousedProxy, context: RequestContext) -> bool {
    &&& context.route matches Some(i) ==> i < proxy.routes@.len()
    &&& context.admission is Some ==> proxy.request_gate.admitted > 0
    &&& context.lease matches Some(lease) ==> {
        &&& context.route matches Some(i)
        &&& !lease.released ==> proxy.routes@[i as int].lifecycle.state.in_flight > 0
    }
}

/// Whether a step of one request changes the counts of the gateway by what the
/// request takes or gives back, and by nothing else.
pub open spec fn keeps_balance(
    before: RousedProxy,
    context_before: RequestContext,
    after: RousedProxy,
    context_after: RequestContext,
) -> bool {
    &&& after.routes@.len() == before.routes@.len()
    &&& after.request_gate.admitted - admissions_held(context_after)
        == before.request_gate.admitted - admissions_held(context_before)
    &&& forall|i: int|
        0 <= i < before.routes@.len() ==> (#[trigger] after.routes@[i]).lifecycle.state.in_flight
            - leases_held(context_after, i) == before.routes@[i].lifecycle.state.in_flight
            - leases_held(context_before, i)
}

/// Whether a step of the gateway lets no request in that was kept out before it.
pub open spec fn stays_closed(before: RousedProxy, after: RousedProxy) -> bool {
    before.request_gate.closed ==> after.request_gate.closed
}

/// How a request is taken up: let in and counted, or, when admission is closed,
/// rejected.
pub open spec fn is_taken_up(
    before: RousedProxy,
    context: RequestContext,
    after: RousedProxy,
) -> bool {
    &&& context.route is None
    &&& context.lease is None
    &&& !context.websocket
    &&& context.admission is Some <==> !before.request_gate.closed
    &&& context.rejected_for_shutdown == before.request_gate.closed
    &&& after == (RousedProxy {
        request_gate: RequestGate {
            admitted: (before.request_gate.admitted + admissions_held(context)) as usize,
            ..before.request_gate
        },
        ..before
    })
}

/// What is to be done with a request whose head has arrived.
pub enum RequestStep {
    /// It is answered at once.
    Respond(LocalResponse),
    /// The service of that route is to be tried, and the result reported.
    Probe(usize),
}

/// What is to be done with a request whose service has been tried.
pub enum RequestDecision {
    /// It is forwarded.
    Forward,
    /// It is answered, and the command, if there is one, is to be run.
    Respond(LocalResponse, Option<CommandSpec>),
}

impl RousedProxy {
    /// Takes up a new request.
    pub fn new_ctx(&mut self) -> (context: RequestContext)
        requires
            old(self).request_gate.admitted < usize::MAX,
        ensures
            is_taken_up(*old(self), context, *final(self)),
            is_counted(*final(self), context),
            stays_closed(*old(self), *final(self)),
    {
        let admission = self.request_gate.try_enter();
        let rejected_for_shutdown = admission.is_none();
        RequestContext {
            route: None,
            lease: None,
            admission,
            rejected_for_shutdown,
            websocket: false,
        }
    }

    fn release_admission(&mut self, context: &mut RequestContext, now: u128)
        requires
            old(context).admission is Some ==> old(self).request_gate.admitted > 0,
        ensures
            *final(self) == (RousedProxy {
                request_gate: gate_without(old(self).request_gate, *old(context), now),
                ..*old(self)
            }),
            *final(context) == (RequestContext { admission: None, ..*old(context) }),
    {
        if let Some(admission) = context.admission.take() {
            self.request_gate.release(admission, now);
        }
    }

    fn find_route(&self, request: &RequestHead) -> (r: Option<usize>)
        ensures
            match r {
                Some(i) => requested_route(
                    *self,
                    headers::header_fields(request.headers),
                ) == Some(i as int) && i < self.routes@.len(),
                None => requested_route(
                    *self,
                    headers::header_fields(request.headers),
                ) is None,
            },
    {
        proof {
            headers::lemma_known_names();
        }
        let values = header_values(&request.headers, "host");
        let ghost all = headers::values_of(
            headers::header_fields(request.headers),
            "host"@,
        );
        assert(all.len() == values@.len());
        if values.len() == 0 {
            return None;
        }
        assert(all[0] == values@[0]@);
        let text = match to_visible_text(&values[0]) {
            Some(text) => text,
            None => {
                return None;
            },
        };
        let host = match normalize_request_host(
            text::text_of(&text).as_str(),
            self.listener_port,
        ) {
            Some(host) => host,
            None => {
                return None;
            },
        };
        let ghost hosts = route_hosts(self.routes@);
        proof {
            text::lemma_first_index(hosts, host@);
        }
        for i in 0..self.routes.len()
            invariant
                hosts == route_hosts(self.routes@),
                requested_route(*self, headers::header_fields(request.headers))
                    == text::first_index(hosts, host@),
                forall|j: int| 0 <= j < i ==> hosts[j] != host@,
        {
            assert(hosts[i as int] == self.routes@[i as int].host@);
            if *self.routes[i].host.as_str() == *host.as_str() {
                proof {
                    text::lemma_first_index_unique(hosts, host@, i as int);
                }
                return Some(i);
            }
        }
        None
    }

    /// Decides what is done with a request whose head has arrived. A request
    /// that was not admitted is told that the gateway shuts down, one for an
    /// unknown host that the host is unknown. Any other is noted as activity of
    /// its service, which is to be tried.
    pub fn request_filter_at(
        &mut self,
        request: &RequestHead,
        context: &mut RequestContext,
        now: u128,
    ) -> (step: RequestStep)
        requires
            is_counted(*old(self), *old(context)),
        ensures
            ({
                let fields = headers::header_fields(request.headers);
                let routed = requested_route(*old(self), fields);
                let websocket = request.http_11 && headers::asks_for_websocket(fields);
                if old(context).rejected_for_shutdown {
                    &&& step matches RequestStep::Respond(response)
                    &&& response@ == response::shutting_down(request.method@)
                    &&& *final(self) == *old(self)
                    &&& *final(context) == *old(context)
                } else if routed is None {
                    &&& step matches RequestStep::Respond(response)
                    &&& response@ == response::unknown_host()
                    &&& *final(self) == (RousedProxy {
                        request_gate: gate_without(old(self).request_gate, *old(context), now),
                        ..*old(self)
                    })
                    &&& *final(context) == (RequestContext {
                        admission: None,
                        websocket,
                        ..*old(context)
                    })
                } else {
                    let i = routed->0;
                    &&& step == RequestStep::Probe(i as usize)
                    &&& 0 <= i < old(self).routes@.len()
                    &&& final(self).routes@ == old(self).routes@.update(
                        i,
                        ServiceRoute {
                            lifecycle: ServiceLifecycle {
                                state: lifecycle::after_arrival(
                                    old(self).routes@[i].lifecycle.state,
                                    now,
                                ),
                                ..old(self).routes@[i].lifecycle
                            },
                            ..old(self).routes@[i]
                        },
                    )
                    &&& final(self).request_gate == old(self).request_gate
                    &&& final(self).listener_port == old(self).listener_port
                    &&& *final(context) == (RequestContext { websocket, ..*old(context) })
                }
            }),
            is_counted(*final(self), *final(context)),
            keeps_balance(*old(self), *old(context), *final(self), *final(context)),
            stays_closed(*old(self), *final(self)),
    {
        if context.rejected_for_shutdown {
            return RequestStep::Respond(shutting_down_response(request));
        }
        context.websocket = is_valid_websocket_request(request);
        match self.find_route(request) {
            None => {
                self.release_admission(context, now);
                RequestStep::Respond(unknown_host_response())
            },
            Some(i) => {
                self.routes[i].lifecycle.note_request_arrival_at(now);
                RequestStep::Probe(i)
            },
        }
    }
}

/// The fields of a request as they go to the service: a body without a length is
/// framed anew.
pub open spec fn upstream_request_fields(
    fields: Map<Seq<char>, Seq<Seq<u8>>>,
    websocket: bool,
    body_empty: bool,
) -> Map<Seq<char>, Seq<Seq<u8>>> {
    let forwarded = headers::forwarded_request_fields(fields, websocket);
    if !body_empty && headers::values_of(forwarded, "content-length"@).len() == 0 {
        forwarded.insert(
            "transfer-encoding"@,
            seq![headers::ascii_bytes("chunked"@)],
        )
    } else {
        forwarded
    }
}

impl RousedProxy {
    /// Decides what is done with a request whose service has been tried. If the
    /// service is not ready the request is answered, and a launch is started
    /// unless one is under way or was just made.
    pub fn readiness_known_at(
        &mut self,
        request: &RequestHead,
        context: &mut RequestContext,
        route: usize,
        ready: bool,
        now: u128,
    ) -> (decision: RequestDecision)
        requires
            is_counted(*old(self), *old(context)),
            old(context).lease is None,
            route < old(self).routes@.len(),
        ensures
            ({
                let before = old(self).routes@[route as int];
                if ready {
                    &&& decision is Forward
                    &&& *final(self) == *old(self)
                    &&& *final(context) == (RequestContext { route: Some(route), ..*old(context) })
                } else {
                    &&& decision matches RequestDecision::Respond(response, command)
                    &&& response@ == response::loading(
                        request.method@,
                        headers::values_of(
                            headers::header_fields(request.headers),
                            "accept"@,
                        ),
                    )
                    &&& command is Some <==> wake::may_launch(before.wake.state, now)
                    &&& command matches Some(spec) ==> {
                        &&& spec.program@ == wake::LAUNCHCTL_PATH@
                        &&& spec.arguments@[0]@ == "kickstart"@
                        &&& spec.arguments@[1]@ == wake::job_target(
                            before.wake.user_id,
                            before.wake.launchd_label@,
                        )
                        &&& spec.timeout == wake::LAUNCH_TIMEOUT
                    }
                    &&& final(self).routes@ == old(self).routes@.update(
                        route as int,
                        ServiceRoute {
                            wake: WakeTarget {
                                state: wake::after_request(before.wake.state, now),
                                ..before.wake
                            },
                            ..before
                        },
                    )
                    &&& final(self).request_gate == gate_without(old(self).request_gate, *old(context), now)
                    &&& final(self).listener_port == old(self).listener_port
                    &&& *final(context) == (RequestContext { admission: None, ..*old(context) })
                }
            }),
            is_counted(*final(self), *final(context)),
            keeps_balance(*old(self), *old(context), *final(self), *final(context)),
            stays_closed(*old(self), *final(self)),
    {
        if ready {
            context.route = Some(route);
            return RequestDecision::Forward;
        }
        let start = self.routes[route].wake.request_launch_at(now);
        let command = if start {
            Some(self.routes[route].wake.command_spec())
        } else {
            None
        };
        self.release_admission(context, now);
        RequestDecision::Respond(loading_response(request), command)
    }

    /// Notes that the launch of a service has finished.
    pub fn launch_finished_at(&mut self, route: usize, now: u128)
        requires
            route < old(self).routes@.len(),
            now + wake::RETRY_COOLDOWN <= u128::MAX,
        ensures
            final(self).routes@ == old(self).routes@.update(
                route as int,
                ServiceRoute {
                    wake: WakeTarget {
                        state: wake::LaunchState::CoolingDownUntil(
                            (now + wake::RETRY_COOLDOWN) as u128,
                        ),
                        ..old(self).routes@[route as int].wake
                    },
                    ..old(self).routes@[route as int]
                },
            ),
            final(self).request_gate == old(self).request_gate,
            final(self).listener_port == old(self).listener_port,
            stays_closed(*old(self), *final(self)),
    {
        self.routes[route].wake.launch_finished_at(now);
    }

    /// Turns the admission of a request that is forwarded into a lease on its
    /// service.
    pub fn proxy_upstream_filter_at(&mut self, context: &mut RequestContext, now: u128) -> (r: Result<
        (),
        &'static str,
    >)
        requires
            is_counted(*old(self), *old(context)),
            old(context).route matches Some(i) ==> old(
                self,
            ).routes@[i as int].lifecycle.state.in_flight < usize::MAX,
        ensures
            match r {
                Err(message) => {
                    &&& *final(self) == *old(self)
                    &&& *final(context) == *old(context)
                    &&& old(context).route is None && message@
                        == "route missing before upstream proxying"@ || old(context).route is Some
                        && old(context).lease is Some && message@
                        == "service lease acquired more than once"@
                },
                Ok(_) => {
                    &&& old(context).route matches Some(i)
                    &&& old(context).lease is None
                    &&& final(self).routes@ == old(self).routes@.update(
                        i as int,
                        ServiceRoute {
                            lifecycle: ServiceLifecycle {
                                state: lifecycle::after_acquire(
                                    old(self).routes@[i as int].lifecycle.state,
                                ),
                                ..old(self).routes@[i as int].lifecycle
                            },
                            ..old(self).routes@[i as int]
                        },
                    )
                    &&& final(self).request_gate == gate_without(old(self).request_gate, *old(context), now)
                    &&& final(self).listener_port == old(self).listener_port
                    &&& *final(context) == (RequestContext {
                        lease: Some(ServiceLease { released: false }),
                        admission: None,
                        ..*old(context)
                    })
                },
            },
            is_counted(*final(self), *final(context)),
            keeps_balance(*old(self), *old(context), *final(self), *final(context)),
            stays_closed(*old(self), *final(self)),
    {
        let route = match context.route {
            Some(route) => route,
            None => {
                return Err("route missing before upstream proxying");
            },
        };
        if context.lease.is_some() {
            return Err("service lease acquired more than once");
        }
        context.lease = Some(self.routes[route].lifecycle.acquire_at(now));
        self.release_admission(context, now);
        Ok(())
    }

    /// The address that a request is forwarded to.
    pub fn upstream_peer(&self, context: &RequestContext) -> (r: Result<SocketAddress, &'static str>)
        requires
            is_counted(*self, *context),
        ensures
            match r {
                Ok(address) => context.route matches Some(i) && address
                    == self.routes@[i as int].wake.upstream,
                Err(message) => context.route is None && message@
                    == "route missing after request filtering"@,
            },
    {
        match context.route {
            Some(route) => Ok(self.routes[route].wake.upstream()),
            None => Err("route missing after request filtering"),
        }
    }

    /// Ends a request: what it holds is given back.
    pub fn logging_at(&mut self, context: &mut RequestContext, now: u128)
        requires
            is_counted(*old(self), *old(context)),
        ensures
            *final(context) == (RequestContext { lease: None, admission: None, ..*old(context) }),
            final(self).request_gate == gate_without(old(self).request_gate, *old(context), now),
            final(self).listener_port == old(self).listener_port,
            final(self).routes@ == match (old(context).lease, old(context).route) {
                (Some(lease), Some(i)) => if lease.released {
                    old(self).routes@
                } else {
                    old(self).routes@.update(
                        i as int,
                        ServiceRoute {
                            lifecycle: ServiceLifecycle {
                                state: lifecycle::after_release(
                                    old(self).routes@[i as int].lifecycle.state,
                                    now,
                                ),
                                ..old(self).routes@[i as int].lifecycle
                            },
                            ..old(self).routes@[i as int]
                        },
                    )
                },
                _ => old(self).routes@,
            },
            is_counted(*final(self), *final(context)),
            keeps_balance(*old(self), *old(context), *final(self), *final(context)),
            stays_closed(*old(self), *final(self)),
    {
        let lease = context.lease.take();
        if let Some(mut lease) = lease {
            if let Some(route) = context.route {
                lease.release_at(&mut self.routes[route].lifecycle, now);
            }
        }
        self.release_admission(context, now);
    }
}

/// Prepares the head of a request for the service.
pub fn upstream_request_filter(
    context: &RequestContext,
    upstream_request: &mut RequestHead,
    body_empty: bool,
) -> (r: Result<(), FieldsFull>)
    ensures
        final(upstream_request).method == old(upstream_request).method,
        final(upstream_request).http_11 == old(upstream_request).http_11,
        r is Ok ==> headers::header_fields(final(upstream_request).headers)
            == upstream_request_fields(
            headers::header_fields(old(upstream_request).headers),
            context.websocket,
            body_empty,
        ),
        !context.websocket && body_empty ==> r is Ok,
        headers::header_fields(old(upstream_request).headers).dom().len() + 2
            < headers::FIELD_ROOM ==> r is Ok,
{
    let ghost fields = headers::header_fields(upstream_request.headers);
    if let Err(full) = strip_request_hop_headers(upstream_request, context.websocket) {
        return Err(full);
    }
    proof {
        headers::lemma_known_names();
        headers::lemma_forwarded_fields_fit(fields, context.websocket);
    }
    if !body_empty && !has_field(&upstream_request.headers, "content-length") {
        if !insert_header(&mut upstream_request.headers, "transfer-encoding", "chunked") {
            return Err(FieldsFull);
        }
    }
    Ok(())
}

/// Prepares the head of a response for the client. Says whether the connection
/// becomes a WebSocket, which is then kept open however long it is silent.
pub fn upstream_response_filter(
    context: &RequestContext,
    upstream_response: &mut ResponseHead,
) -> (r: Result<bool, FieldsFull>)
    ensures
        final(upstream_response).status == old(upstream_response).status,
        ({
            let fields = headers::header_fields(old(upstream_response).headers);
            let upgraded = context.websocket && old(upstream_response).status == 101
                && headers::asks_for_websocket(fields);
            &&& r matches Ok(answer) ==> answer == upgraded && headers::header_fields(
                final(upstream_response).headers,
            ) == headers::forwarded_response_fields(fields, upgraded)
            &&& !upgraded ==> r is Ok
            &&& fields.dom().len() < headers::FIELD_ROOM ==> r is Ok
        }),
{
    let upgraded = context.websocket && is_valid_websocket_response(upstream_response);
    match strip_response_hop_headers(upstream_response, upgraded) {
        Ok(_) => Ok(upgraded),
        Err(full) => Err(full),
    }
}

/// What the log says of a request: nothing of its contents.
pub fn request_summary() -> (summary: String)
    ensures
        summary@ == "proxied request"@,
{
    "proxied request".to_owned()
}

/// The body of a forwarded request is framed in one way: by its length, where the
/// client gave one that is forwarded, else in chunks, and never as the client had
/// framed its own connection.
pub proof fn law_forwarded_body_is_framed_once(
    fields: Map<Seq<char>, Seq<Seq<u8>>>,
    websocket: bool,
    body_empty: bool,
)
    ensures
        ({
            let sent = upstream_request_fields(fields, websocket, body_empty);
            let has_length = headers::values_of(sent, "content-length"@).len() > 0;
            &&& sent.contains_key("transfer-encoding"@) <==> !body_empty && !has_length
            &&& sent.contains_key("transfer-encoding"@) ==> sent["transfer-encoding"@]
                == seq![headers::ascii_bytes("chunked"@)]
        }),
{
    reveal_strlit("transfer-encoding");
    reveal_strlit("content-length");
    reveal_strlit("connection");
    reveal_strlit("upgrade");
    assert("transfer-encoding"@.len() != "content-length"@.len());
    assert("transfer-encoding"@.len() != "connection"@.len());
    assert("transfer-encoding"@.len() != "upgrade"@.len());
}

/// How many admissions requests hold together.
pub open spec fn all_admissions(contexts: Seq<RequestContext>) -> int
    decreases contexts.len(),
{
    if contexts.len() == 0 {
        0
    } else {
        all_admissions(contexts.drop_last()) + admissions_held(contexts.last())
    }
}

/// How many leases on a route requests hold together.
pub open spec fn all_leases(contexts: Seq<RequestContext>, route: int) -> int
    decreases contexts.len(),
{
    if contexts.len() == 0 {
        0
    } else {
        all_leases(contexts.drop_last(), route) + leases_held(contexts.last(), route)
    }
}

/// Whether the gateway counts what the requests hold, and nothing else.
pub open spec fn accounts_for(proxy: RousedProxy, contexts: Seq<RequestContext>) -> bool {
    &&& proxy.request_gate.admitted == all_admissions(contexts)
    &&& forall|i: int|
        0 <= i < proxy.routes@.len() ==> (#[trigger] proxy.routes@[i]).lifecycle.state.in_flight
            == all_leases(contexts, i)
}

proof fn lemma_admissions_of_one(contexts: Seq<RequestContext>, k: int, context: RequestContext)
    requires
        0 <= k < contexts.len(),
    ensures
        all_admissions(contexts.update(k, context)) == all_admissions(contexts) - admissions_held(
            contexts[k],
        ) + admissions_held(context),
        all_admissions(contexts) >= admissions_held(contexts[k]),
    decreases contexts.len(),
{
    if k == contexts.len() - 1 {
        assert(contexts.update(k, context).drop_last() =~= contexts.drop_last());
        lemma_admissions_nonneg(contexts.drop_last());
    } else {
        assert(contexts.update(k, context).drop_last() =~= contexts.drop_last().update(k, context));
        lemma_admissions_of_one(contexts.drop_last(), k, context);
    }
}

proof fn lemma_admissions_nonneg(contexts: Seq<RequestContext>)
    ensures
        all_admissions(contexts) >= 0,
    decreases contexts.len(),
{
    if contexts.len() > 0 {
        lemma_admissions_nonneg(contexts.drop_last());
    }
}

proof fn lemma_leases_of_one(
    contexts: Seq<RequestContext>,
    k: int,
    context: RequestContext,
    route: int,
)
    requires
        0 <= k < contexts.len(),
    ensures
        all_leases(contexts.update(k, context), route) == all_leases(contexts, route)
            - leases_held(contexts[k], route) + leases_held(context, route),
        all_leases(contexts, route) >= leases_held(contexts[k], route),
    decreases contexts.len(),
{
    if k == contexts.len() - 1 {
        assert(contexts.update(k, context).drop_last() =~= contexts.drop_last());
        lemma_leases_nonneg(contexts.drop_last(), route);
    } else {
        assert(contexts.update(k, context).drop_last() =~= contexts.drop_last().update(k, context));
        lemma_leases_of_one(contexts.drop_last(), k, context, route);
    }
}

proof fn lemma_leases_nonneg(contexts: Seq<RequestContext>, route: int)
    ensures
        all_leases(contexts, route) >= 0,
    decreases contexts.len(),
{
    if contexts.len() > 0 {
        lemma_leases_nonneg(contexts.drop_last(), route);
    }
}

/// Whatever steps requests take, in whatever order, the gateway counts exactly
/// what they hold.
pub proof fn law_requests_stay_accounted_for(
    before: RousedProxy,
    after: RousedProxy,
    contexts: Seq<RequestContext>,
    k: int,
    context: RequestContext,
)
    requires
        accounts_for(before, contexts),
        0 <= k < contexts.len(),
        keeps_balance(before, contexts[k], after, context),
    ensures
        accounts_for(after, contexts.update(k, context)),
{
    lemma_admissions_of_one(contexts, k, context);
    assert forall|i: int| 0 <= i < after.routes@.len() implies (
    #[trigger] after.routes@[i]).lifecycle.state.in_flight == all_leases(
        contexts.update(k, context),
        i,
    ) by {
        lemma_leases_of_one(contexts, k, context, i);
        assert(before.routes@[i].lifecycle.state.in_flight == all_leases(contexts, i));
    }
}

/// A new request is accounted for from the start: what the gateway counts is what
/// the requests before it hold, and what it holds itself.
pub proof fn law_new_request_is_accounted_for(
    before: RousedProxy,
    after: RousedProxy,
    contexts: Seq<RequestContext>,
    context: RequestContext,
)
    requires
        accounts_for(before, contexts),
        context.lease is None,
        after.routes@ == before.routes@,
        after.request_gate.admitted == before.request_gate.admitted + admissions_held(context),
    ensures
        accounts_for(after, contexts.push(context)),
{
    assert(contexts.push(context).drop_last() =~= contexts);
    assert forall|i: int| 0 <= i < after.routes@.len() implies (
    #[trigger] after.routes@[i]).lifecycle.state.in_flight == all_leases(
        contexts.push(context),
        i,
    ) by {
        assert(before.routes@[i].lifecycle.state.in_flight == all_leases(contexts, i));
    }
}

/// What is accounted for can be given back: no release runs short.
pub proof fn law_accounted_request_is_counted(
    proxy: RousedProxy,
    contexts: Seq<RequestContext>,
    k: int,
)
    requires
        accounts_for(proxy, contexts),
        0 <= k < contexts.len(),
        contexts[k].route matches Some(i) ==> i < proxy.routes@.len(),
        contexts[k].lease is Some ==> contexts[k].route is Some,
    ensures
        is_counted(proxy, contexts[k]),
{
    lemma_admissions_of_one(contexts, k, contexts[k]);
    if let Some(i) = contexts[k].route {
        lemma_leases_of_one(contexts, k, contexts[k], i as int);
        assert(proxy.routes@[i as int].lifecycle.state.in_flight == all_leases(contexts, i as int));
    }
}

/// When every request has given back what it held, nothing is counted: no
/// admission, and no request in flight.
pub proof fn law_ended_requests_leave_nothing(proxy: RousedProxy, contexts: Seq<RequestContext>)
    requires
        accounts_for(proxy, contexts),
        forall|k: int|
            0 <= k < contexts.len() ==> (#[trigger] contexts[k]).admission is None
                && contexts[k].lease is None,
    ensures
        proxy.request_gate.admitted == 0,
        forall|i: int|
            0 <= i < proxy.routes@.len() ==> (
            #[trigger] proxy.routes@[i]).lifecycle.state.in_flight == 0,
{
    lemma_nothing_held(contexts, 0);
    assert forall|i: int| 0 <= i < proxy.routes@.len() implies (
    #[trigger] proxy.routes@[i]).lifecycle.state.in_flight == 0 by {
        lemma_nothing_held(contexts, i);
    }
}

proof fn lemma_nothing_held(contexts: Seq<RequestContext>, route: int)
    requires
        forall|k: int|
            0 <= k < contexts.len() ==> (#[trigger] contexts[k]).admission is None
                && contexts[k].lease is None,
    ensures
        all_admissions(contexts) == 0,
        all_leases(contexts, route) == 0,
    decreases contexts.len(),
{
    if contexts.len() > 0 {
        assert(contexts.last() == contexts[contexts.len() - 1]);
        assert(forall|k: int|
            0 <= k < contexts.len() - 1 ==> #[trigger] contexts.drop_last()[k] == contexts[k]);
        lemma_nothing_held(contexts.drop_last(), route);
    }
}

/// A shutdown that has begun is never taken back: whatever steps the gateway takes
/// after it, admission stays closed, and every later request is rejected and changes
/// nothing.
pub proof fn law_shutdown_is_permanent(
    history: Seq<RousedProxy>,
    begun: int,
    later: int,
    context: RequestContext,
    after: RousedProxy,
)
    requires
        0 <= begun <= later < history.len(),
        history[begun].request_gate.closed,
        forall|k: int|
            begun <= k < later ==> stays_closed(#[trigger] history[k], history[k + 1]),
        is_taken_up(history[later], context, after),
    ensures
        history[later].request_gate.closed,
        context.admission is None,
        context.rejected_for_shutdown,
        after == history[later],
{
    lemma_still_closed(history, begun, later);
}

proof fn lemma_still_closed(history: Seq<RousedProxy>, begun: int, later: int)
    requires
        0 <= begun <= later < history.len(),
        history[begun].request_gate.closed,
        forall|k: int|
            begun <= k < later ==> stays_closed(#[trigger] history[k], history[k + 1]),
    ensures
        history[later].request_gate.closed,
    decreases later - begun,
{
    if begun < later {
        lemma_still_closed(history, begun, later - 1);
        assert(stays_closed(history[later - 1], history[later]));
    }
}

/// To begin the shutdown again changes nothing, and what requests were granted
/// before it stays counted.
pub proof fn law_shutdown_keeps_what_was_granted(proxy: RousedProxy, context: RequestContext)
    requires
        is_counted(proxy, context),
    ensures
        gate::closed_gate(gate::closed_gate(proxy.request_gate)) == gate::closed_gate(
            proxy.request_gate,
        ),
        proxy.request_gate.closed ==> gate::closed_gate(proxy.request_gate) == proxy.request_gate,
        is_counted(
            RousedProxy { request_gate: gate::closed_gate(proxy.request_gate), ..proxy },
            context,
        ),
{
}

/// A request that names a configured host, in any case, with a terminal dot or
/// with the listener port, is routed to the service of that host.
pub proof fn law_request_reaches_its_service(
    config: config::ConfigView,
    proxy: RousedProxy,
    fields: Map<Seq<char>, Seq<Seq<u8>>>,
    i: int,
    spelling: Seq<char>,
)
    requires
        config::valid_config(config),
        proxy.listener_port == config.listen.port,
        proxy.routes@.len() == config.services.len(),
        forall|j: int|
            0 <= j < config.services.len() ==> (#[trigger] proxy.routes@[j]).host@
                == config.services[j].host,
        0 <= i < config.services.len(),
        headers::values_of(fields, "host"@).len() > 0,
        response::visible_text(headers::values_of(fields, "host"@)[0]) == Some(
            spelling,
        ),
        ({
            let host = config.services[i].host;
            let port = text::decimal(config.listen.port as nat);
            let folded = text::lower(spelling);
            folded == host || folded == host.push('.') || folded == host.push(':') + port || folded
                == host.push('.').push(':') + port
        }),
    ensures
        requested_route(proxy, fields) == Some(i),
{
    config::law_configured_host_is_routed(config, i, spelling);
    let hosts = route_hosts(proxy.routes@);
    let host = config.services[i].host;
    assert(hosts[i] == proxy.routes@[i].host@);
    assert forall|j: int| 0 <= j < i implies hosts[j] != host by {
        assert(hosts[j] == proxy.routes@[j].host@);
        assert(config.services[j].host != config.services[i].host);
    }
    text::lemma_first_index_unique(hosts, host, i);
}

/// A request whose host is malformed or belongs to no service has no route.
pub proof fn law_unknown_host_has_no_route(
    proxy: RousedProxy,
    fields: Map<Seq<char>, Seq<Seq<u8>>>,
)
    requires
        requested_host(fields, proxy.listener_port) matches Some(host) ==> forall|j: int|
            0 <= j < proxy.routes@.len() ==> (#[trigger] proxy.routes@[j]).host@ != host,
    ensures
        requested_route(proxy, fields) is None,
{
    if let Some(host) = requested_host(fields, proxy.listener_port) {
        let hosts = route_hosts(proxy.routes@);
        text::lemma_first_index(hosts, host);
        if let Some(j) = text::first_index(hosts, host) {
            assert(hosts[j] == proxy.routes@[j].host@);
        }
    }
}

/// A host as it may be written in a request: with one dot behind it or without, and with
/// the listener port behind that or without.
pub open spec fn written_host(
    name: Seq<char>,
    listener_port: u16,
    dotted: bool,
    with_port: bool,
) -> Seq<char> {
    let host = if dotted {
        name.push('.')
    } else {
        name
    };
    if with_port {
        host.push(':') + text::decimal(listener_port as nat)
    } else {
        host
    }
}

/// Whether bytes are the characters of a text, one by one.
pub open spec fn are_bytes_of(value: Seq<u8>, written: Seq<char>) -> bool {
    &&& value.len() == written.len()
    &&& forall|k: int| 0 <= k < written.len() ==> value[k] as u32 == (#[trigger] written[k]) as u32
}

/// What is written of a host is visible.
proof fn lemma_written_host_is_visible(
    name: Seq<char>,
    listener_port: u16,
    dotted: bool,
    with_port: bool,
    value: Seq<u8>,
)
    requires
        host::is_host_text(name),
        are_bytes_of(value, written_host(name, listener_port, dotted, with_port)),
    ensures
        response::visible_text(value) == Some(
            written_host(name, listener_port, dotted, with_port),
        ),
{
    let digits = text::decimal(listener_port as nat);
    let written = written_host(name, listener_port, dotted, with_port);
    let end: int = if dotted {
        name.len() as int + 1
    } else {
        name.len() as int
    };
    text::lemma_decimal(listener_port as nat);
    assert forall|k: int| 0 <= k < value.len() implies 0x20 <= #[trigger] value[k] && value[k]
        < 0x7f by {
        assert(value[k] as u32 == written[k] as u32);
        if k < name.len() {
            assert(written[k] == name[k]);
        } else if k < end {
            assert(written[k] == '.');
        } else if k == end {
            assert(written[k] == ':');
        } else {
            assert(written[k] == digits[k - end - 1]);
            assert(text::is_digit(digits[k - end - 1]));
        }
    }
    let shown = headers::ascii_text(value);
    assert forall|k: int| 0 <= k < value.len() implies shown[k] == written[k] by {
        assert(shown[k] == value[k] as char);
        assert(value[k] as u32 == written[k] as u32);
        assert(0x20 <= value[k] && value[k] < 0x7f);
    }
    assert(shown =~= written);
}

proof fn lemma_spelled_route(
    proxy: RousedProxy,
    fields: Map<Seq<char>, Seq<Seq<u8>>>,
    i: int,
    name: Seq<char>,
    at: int,
    dotted: bool,
    with_port: bool,
)
    requires
        0 <= i < proxy.routes@.len(),
        forall|j: int|
            0 <= j < proxy.routes@.len() && j != i ==> (#[trigger] proxy.routes@[j]).host@
                != proxy.routes@[i].host@,
        host::is_host_text(name),
        host::is_no_ipv4_text(name, at),
        host::is_lower_case_of(proxy.routes@[i].host@, name),
        fields.contains_key("host"@),
        fields["host"@].len() > 0,
        are_bytes_of(
            fields["host"@][0],
            written_host(name, proxy.listener_port, dotted, with_port),
        ),
    ensures
        requested_route(proxy, fields) == Some(i),
{
    let port = proxy.listener_port;
    let value = fields["host"@][0];
    lemma_written_host_is_visible(name, port, dotted, with_port, value);
    host::lemma_spelled_host(name, at, port, port);
    let found = proxy.routes@[i].host@;
    host::lemma_is_lower_case(found, name);
    let hosts = route_hosts(proxy.routes@);
    assert(hosts[i] == found);
    assert forall|j: int| 0 <= j < i implies hosts[j] != found by {
        assert(hosts[j] == proxy.routes@[j].host@);
    }
    text::lemma_first_index_unique(hosts, found, i);
}

/// A request that was let in and whose first `Host` field is, byte by byte, the host of a
/// service in any case, with one dot behind it or without and with the listener port or
/// without, goes to that service and to no other. It is noted as activity of the service.
pub proof fn law_request_is_routed_by_its_bytes(
    proxy: &mut RousedProxy,
    request: RequestHead,
    context: &mut RequestContext,
    now: u128,
    step: RequestStep,
    i: int,
    name: Seq<char>,
    at: int,
    dotted: bool,
    with_port: bool,
)
    requires
        call_ensures(RousedProxy::request_filter_at, (proxy, &request, context, now), step),
        !old(context).rejected_for_shutdown,
        0 <= i < old(proxy).routes@.len(),
        forall|j: int|
            0 <= j < old(proxy).routes@.len() && j != i ==> (#[trigger] old(proxy).routes@[j]).host@ != old(proxy).routes@[i].host@,
        host::is_host_text(name),
        host::is_no_ipv4_text(name, at),
        host::is_lower_case_of(old(proxy).routes@[i].host@, name),
        headers::header_fields(request.headers).contains_key("host"@),
        headers::header_fields(request.headers)["host"@].len() > 0,
        are_bytes_of(
            headers::header_fields(request.headers)["host"@][0],
            written_host(name, old(proxy).listener_port, dotted, with_port),
        ),
    ensures
        step == RequestStep::Probe(i as usize),
        final(proxy).routes@.len() == old(proxy).routes@.len(),
        forall|j: int|
            0 <= j < old(proxy).routes@.len() && j != i ==> #[trigger] final(proxy).routes@[j]
                == old(proxy).routes@[j],
        final(proxy).routes@[i].host == old(proxy).routes@[i].host,
        final(proxy).routes@[i].wake == old(proxy).routes@[i].wake,
        final(proxy).routes@[i].lifecycle.state.idle_since == now,
        final(proxy).routes@[i].lifecycle.state.in_flight == old(proxy).routes@[i].lifecycle.state.in_flight,
        final(proxy).routes@[i].lifecycle.state.generation != old(proxy).routes@[i].lifecycle.state.generation,
        final(proxy).routes@[i].lifecycle.idle_timeout == old(proxy).routes@[i].lifecycle.idle_timeout,
        final(proxy).request_gate == old(proxy).request_gate,
        final(proxy).listener_port == old(proxy).listener_port,
        final(context).admission == old(context).admission,
        final(context).lease == old(context).lease,
        final(context).websocket <==> request.http_11 && headers::field_is_word(
            headers::header_fields(request.headers),
            "upgrade"@,
            "websocket"@,
        ) && headers::field_lists_word(
            headers::header_fields(request.headers),
            "connection"@,
            "upgrade"@,
        ),
{
    let fields = headers::header_fields(request.headers);
    lemma_spelled_route(*old(proxy), fields, i, name, at, dotted, with_port);
    headers::law_fields_of_an_upgrade(fields);
}

/// A request that was let in is either tried with a service or told that its host is
/// unknown. It is tried only with a service whose host it names: the first `Host` field
/// begins with a name that is the host of the service but for its case.
pub proof fn law_other_hosts_are_unknown(
    proxy: &mut RousedProxy,
    request: RequestHead,
    context: &mut RequestContext,
    now: u128,
    step: RequestStep,
) -> (name: Seq<char>)
    requires
        call_ensures(RousedProxy::request_filter_at, (proxy, &request, context, now), step),
        !old(context).rejected_for_shutdown,
    ensures
        step matches RequestStep::Probe(i) ==> {
            let fields = headers::header_fields(request.headers);
            &&& i < old(proxy).routes@.len()
            &&& fields.contains_key("host"@)
            &&& fields["host"@].len() > 0
            &&& host::is_host_text(name)
            &&& host::is_lower_case_of(old(proxy).routes@[i as int].host@, name)
            &&& name.len() <= fields["host"@][0].len()
            &&& forall|k: int|
                0 <= k < name.len() ==> fields["host"@][0][k] as u32 == (#[trigger] name[k]) as u32
        },
        step matches RequestStep::Respond(response) ==> {
            &&& response.status == 421
            &&& response.body@ == "unknown host\n"@
            &&& !response.omit_body
            &&& final(proxy).routes@ == old(proxy).routes@
            &&& final(context).admission is None
            &&& final(proxy).request_gate.closed == old(proxy).request_gate.closed
            &&& old(context).admission is None ==> final(proxy).request_gate == old(proxy).request_gate
            &&& old(context).admission is Some && old(proxy).request_gate.admitted > 0 ==> final(proxy).request_gate.admitted == old(proxy).request_gate.admitted - 1 && final(proxy).request_gate.last_released == now
        },
{
    let fields = headers::header_fields(request.headers);
    let routed = requested_route(*old(proxy), fields);
    if let RequestStep::Respond(response) = step {
        assert(response.status == response@.status);
        assert(response.body@ == response@.body);
        assert(response.omit_body == response@.omit_body);
    }
    if routed is Some && !old(context).rejected_for_shutdown {
        let i = routed->0;
        assert(old(proxy).routes@.len() == old(proxy).routes.len());
        let value = fields["host"@][0];
        let shown = headers::ascii_text(value);
        let hosts = route_hosts(old(proxy).routes@);
        let found = host::normalized_authority(shown, Some(old(proxy).listener_port))->0;
        text::lemma_first_index(hosts, found);
        assert(hosts[i] == old(proxy).routes@[i].host@);
        let name = host::lemma_found_host(shown, Some(old(proxy).listener_port));
        assert forall|k: int| 0 <= k < name.len() implies value[k] as u32 == (
        #[trigger] name[k]) as u32 by {
            assert(shown[k] == name[k]);
            assert(shown[k] == value[k] as char);
            assert((0x20 <= value[k] && value[k] < 0x7f) || value[k] == 0x9);
        }
        name
    } else {
        Seq::<char>::empty()
    }
}

/// A request that was not let in is told that the gateway shuts down, whatever its host
/// is, and changes nothing.
pub proof fn law_rejected_request_is_told_of_the_shutdown(
    proxy: &mut RousedProxy,
    request: RequestHead,
    context: &mut RequestContext,
    now: u128,
    step: RequestStep,
)
    requires
        call_ensures(RousedProxy::request_filter_at, (proxy, &request, context, now), step),
        old(context).rejected_for_shutdown,
    ensures
        step matches RequestStep::Respond(response) && response.status == 503 && response.body@
            == "gateway shutting down\n"@ && (response.omit_body <==> request.method@ == "HEAD"@),
        *final(proxy) == *old(proxy),
        *final(context) == *old(context),
{
    if let RequestStep::Respond(response) = step {
        assert(response.status == response@.status);
        assert(response.body@ == response@.body);
        assert(response.omit_body == response@.omit_body);
    }
}

/// From the shutdown on every new request is rejected, none before it; one that is let in
/// is counted.
pub proof fn law_requests_are_let_in_until_shutdown(
    proxy: &mut RousedProxy,
    context: RequestContext,
)
    requires
        call_ensures(RousedProxy::new_ctx, (proxy,), context),
        old(proxy).request_gate.admitted < usize::MAX,
    ensures
        context.rejected_for_shutdown <==> old(proxy).request_gate.closed,
        context.admission is Some <==> !old(proxy).request_gate.closed,
        context.route is None,
        context.lease is None,
        !context.websocket,
        old(proxy).request_gate.closed ==> *final(proxy) == *old(proxy),
        !old(proxy).request_gate.closed ==> final(proxy).request_gate.admitted == old(proxy).request_gate.admitted + 1,
        final(proxy).routes@ == old(proxy).routes@,
        final(proxy).request_gate.closed == old(proxy).request_gate.closed,
        final(proxy).request_gate.last_released == old(proxy).request_gate.last_released,
        final(proxy).listener_port == old(proxy).listener_port,
{
}

/// To begin the shutdown closes admission for good and changes nothing else.
pub proof fn law_shutdown_closes_admission(
    proxy: &mut RousedProxy,
    handle: &mut GatewayShutdownHandle<'_>,
)
    requires
        call_ensures(RousedProxy::shutdown_handle, (proxy,), *old(handle)),
        call_ensures(GatewayShutdownHandle::begin_shutdown, (handle,), ()),
        *final(final(handle).request_gate) == *final(handle).request_gate,
    ensures
        final(proxy).request_gate.closed,
        final(proxy).request_gate.admitted == old(proxy).request_gate.admitted,
        final(proxy).request_gate.last_released == old(proxy).request_gate.last_released,
        final(proxy).routes@ == old(proxy).routes@,
        final(proxy).listener_port == old(proxy).listener_port,
{
}

/// A request for a service that is ready is forwarded to it. One for a service that is
/// not ready is answered while the service starts: with status 503, to be made again
/// after five seconds, with the body unless the method is HEAD. A launch is started with
/// it unless one runs or has just finished, and the request gives its admission back.
pub proof fn law_unready_service_is_woken(
    proxy: &mut RousedProxy,
    request: RequestHead,
    context: &mut RequestContext,
    route: usize,
    ready: bool,
    now: u128,
    decision: RequestDecision,
    html: bool,
)
    requires
        call_ensures(
            RousedProxy::readiness_known_at,
            (proxy, &request, context, route, ready, now),
            decision,
        ),
        route < old(proxy).routes@.len(),
        call_ensures(response::prefers_html_loading, (&request,), html),
    ensures
        ready ==> {
            &&& decision is Forward
            &&& *final(proxy) == *old(proxy)
            &&& final(context).route == Some(route)
            &&& final(context).admission == old(context).admission
            &&& final(context).lease == old(context).lease
            &&& final(context).websocket == old(context).websocket
        },
        !ready ==> {
            let wake = old(proxy).routes@[route as int].wake;
            let after = final(proxy).routes@[route as int];
            &&& decision matches RequestDecision::Respond(response, command)
            &&& response.status == 503
            &&& response.omit_body <==> request.method@ == "HEAD"@
            &&& response.body@ == if html {
                response::LOADING_HTML_BODY@
            } else {
                response::LOADING_JSON_BODY@
            }
            &&& response.fields@.len() == 4
            &&& response::is_field(response.fields@[1], "Retry-After"@, "5"@)
            &&& response::is_field(response.fields@[2], "Cache-Control"@, "no-store"@)
            &&& wake.state is Eligible ==> command is Some
            &&& wake.state is Launching ==> command is None
            &&& wake.state matches wake::LaunchState::CoolingDownUntil(until) ==> (command is Some
                <==> until <= now)
            &&& command is Some ==> after.wake.state is Launching
            &&& command is None ==> after.wake == wake
            &&& command matches Some(spec) ==> {
                &&& spec.program@ == "/bin/launchctl"@
                &&& spec.arguments@[0]@ == "kickstart"@
                &&& spec.arguments@[1]@ == "gui/"@ + text::decimal(wake.user_id as nat) + "/"@
                    + wake.launchd_label@
                &&& spec.timeout == 5_000_000_000
            }
            &&& after.lifecycle == old(proxy).routes@[route as int].lifecycle
            &&& after.host == old(proxy).routes@[route as int].host
            &&& forall|j: int|
                0 <= j < old(proxy).routes@.len() && j != route ==> #[trigger] final(proxy).routes@[j] == old(proxy).routes@[j]
            &&& final(context).admission is None
            &&& final(context).route == old(context).route
            &&& old(context).admission is Some && old(proxy).request_gate.admitted > 0 ==> final(proxy).request_gate.admitted == old(proxy).request_gate.admitted - 1 && final(proxy).request_gate.last_released == now
            &&& old(context).admission is None ==> final(proxy).request_gate == old(proxy).request_gate
            &&& final(proxy).request_gate.closed == old(proxy).request_gate.closed
        },
{
    if !ready {
        let response = decision->Respond_0;
        response::lemma_response_parts(response);
        assert(response@.fields[1] == ("Retry-After"@, "5"@));
        assert(response@.fields[2] == ("Cache-Control"@, "no-store"@));
    }
}

/// When the launch of a service has finished no other is started for five seconds; the
/// other services are as they were.
pub proof fn law_finished_launch_is_noted(
    proxy: &mut RousedProxy,
    route: usize,
    finished: u128,
    next: &mut RousedProxy,
    request: RequestHead,
    context: &mut RequestContext,
    now: u128,
    decision: RequestDecision,
)
    requires
        route < old(proxy).routes@.len(),
        finished + 5_000_000_000 <= u128::MAX,
        call_ensures(RousedProxy::launch_finished_at, (proxy, route, finished), ()),
        *old(next) == *final(proxy),
        call_ensures(
            RousedProxy::readiness_known_at,
            (next, &request, context, route, false, now),
            decision,
        ),
    ensures
        decision matches RequestDecision::Respond(_, command) && (command is Some <==> now
            >= finished + 5_000_000_000),
        final(proxy).routes@.len() == old(proxy).routes@.len(),
        forall|j: int|
            0 <= j < old(proxy).routes@.len() && j != route ==> #[trigger] final(proxy).routes@[j]
                == old(proxy).routes@[j],
        final(proxy).routes@[route as int].lifecycle == old(proxy).routes@[route as int].lifecycle,
        final(proxy).routes@[route as int].wake.upstream == old(proxy).routes@[route as int].wake.upstream,
        final(proxy).request_gate == old(proxy).request_gate,
{
}

/// A request that is forwarded takes one lease on its service in place of its admission,
/// and goes to the address of the service. Without a route, and with a lease already, it
/// is refused and changes nothing.
pub proof fn law_forwarded_request_takes_a_lease(
    proxy: &mut RousedProxy,
    context: &mut RequestContext,
    now: u128,
    r: Result<(), &'static str>,
    address: Result<SocketAddress, &'static str>,
)
    requires
        call_ensures(RousedProxy::proxy_upstream_filter_at, (proxy, context, now), r),
        old(context).route matches Some(i) ==> i < old(proxy).routes@.len() && old(proxy).routes@[i as int].lifecycle.state.in_flight < usize::MAX,
        call_ensures(RousedProxy::upstream_peer, (final(proxy), final(context)), address),
    ensures
        r is Ok <==> old(context).route is Some && old(context).lease is None,
        r is Err ==> *final(proxy) == *old(proxy) && *final(context) == *old(context),
        r is Ok ==> {
            let i = old(context).route->0 as int;
            &&& final(proxy).routes@[i].lifecycle.state.in_flight == old(proxy).routes@[i].lifecycle.state.in_flight + 1
            &&& final(proxy).routes@[i].lifecycle.state.generation != old(proxy).routes@[i].lifecycle.state.generation
            &&& final(proxy).routes@[i].wake == old(proxy).routes@[i].wake
            &&& forall|j: int|
                0 <= j < old(proxy).routes@.len() && j != i ==> #[trigger] final(proxy).routes@[j]
                    == old(proxy).routes@[j]
            &&& final(context).lease matches Some(lease) && !lease.released
            &&& final(context).admission is None
            &&& final(context).route == old(context).route
            &&& final(context).websocket == old(context).websocket
            &&& old(context).admission is Some && old(proxy).request_gate.admitted > 0 ==> final(proxy).request_gate.admitted == old(proxy).request_gate.admitted - 1 && final(proxy).request_gate.last_released == now
            &&& final(proxy).request_gate.closed == old(proxy).request_gate.closed
            &&& address matches Ok(upstream) && upstream == old(proxy).routes@[i].wake.upstream
        },
        old(context).route is None ==> address is Err,
{
}

/// A request that ends gives back what it holds, its lease with the time of its end, and
/// nothing else: the other services and their requests are as they were.
pub proof fn law_ended_request_gives_back_what_it_holds(
    proxy: &mut RousedProxy,
    context: &mut RequestContext,
    now: u128,
)
    requires
        call_ensures(RousedProxy::logging_at, (proxy, context, now), ()),
        is_counted(*old(proxy), *old(context)),
    ensures
        final(context).lease is None,
        final(context).admission is None,
        final(context).route == old(context).route,
        final(proxy).routes@.len() == old(proxy).routes@.len(),
        old(context).admission is Some ==> final(proxy).request_gate.admitted == old(proxy).request_gate.admitted - 1 && final(proxy).request_gate.last_released == now,
        old(context).admission is None ==> final(proxy).request_gate == old(proxy).request_gate,
        final(proxy).request_gate.closed == old(proxy).request_gate.closed,
        old(context).lease is None || old(context).lease->0.released ==> final(proxy).routes@
            == old(proxy).routes@,
        old(context).lease is Some && !old(context).lease->0.released ==> {
            let i = old(context).route->0 as int;
            &&& final(proxy).routes@[i].lifecycle.state.in_flight == old(proxy).routes@[i].lifecycle.state.in_flight - 1
            &&& final(proxy).routes@[i].lifecycle.state.idle_since == now
            &&& final(proxy).routes@[i].lifecycle.state.last_completed == now
            &&& final(proxy).routes@[i].lifecycle.state.generation != old(proxy).routes@[i].lifecycle.state.generation
            &&& final(proxy).routes@[i].wake == old(proxy).routes@[i].wake
            &&& forall|j: int|
                0 <= j < old(proxy).routes@.len() && j != i ==> #[trigger] final(proxy).routes@[j]
                    == old(proxy).routes@[j]
        },
{
}

/// A request that is no upgrade goes to its service with every field, in all its values,
/// but those that a `Connection` field names and the nine that concern one connection or
/// a proxy. A body without a length is sent in chunks.
pub proof fn law_request_goes_to_its_service_whole(
    context: RequestContext,
    request: &mut RequestHead,
    body_empty: bool,
    r: Result<(), FieldsFull>,
    name: Seq<char>,
)
    requires
        call_ensures(upstream_request_filter, (&context, request, body_empty), r),
        !context.websocket,
        headers::is_name(name),
    ensures
        ({
            let before = headers::header_fields(old(request).headers);
            let after = headers::header_fields(final(request).headers);
            let kept = before.contains_key(name) && !headers::field_lists_word(
                before,
                "connection"@,
                name,
            ) && name != "connection"@ && name != "upgrade"@ && name != "proxy-connection"@ && name
                != "keep-alive"@ && name != "proxy-authenticate"@ && name
                != "proxy-authorization"@ && name != "te"@ && name != "trailer"@ && name
                != "transfer-encoding"@;
            let has_length = before.contains_key("content-length"@)
                && before["content-length"@].len() > 0 && !headers::field_lists_word(
                before,
                "connection"@,
                "content-length"@,
            );
            &&& body_empty || before.dom().len() + 2 < 4_096 ==> r is Ok
            &&& r is Ok && name != "transfer-encoding"@ ==> (after.contains_key(name) <==> kept)
            &&& r is Ok && kept ==> after[name] == before[name]
            &&& r is Ok ==> (after.contains_key("transfer-encoding"@) <==> !body_empty
                && !has_length)
            &&& r is Ok && !body_empty && !has_length ==> after["transfer-encoding"@] == seq![
                seq![0x63u8, 0x68, 0x75, 0x6e, 0x6b, 0x65, 0x64],
            ]
            &&& final(request).method@ == old(request).method@
            &&& final(request).http_11 == old(request).http_11
        }),
{
    let before = headers::header_fields(old(request).headers);
    headers::lemma_connection_names(before, name);
    headers::lemma_content_length();
    headers::lemma_connection_names(before, "content-length"@);
    assert(headers::ascii_bytes("chunked"@) =~= seq![
        0x63u8,
        0x68,
        0x75,
        0x6e,
        0x6b,
        0x65,
        0x64,
    ]) by {
        reveal_strlit("chunked");
    }
}

/// A WebSocket request goes to its service with the two fields of the upgrade in their
/// plain form, and with every other field that is not kept back.
pub proof fn law_websocket_request_goes_to_its_service(
    context: RequestContext,
    request: &mut RequestHead,
    body_empty: bool,
    r: Result<(), FieldsFull>,
    name: Seq<char>,
)
    requires
        call_ensures(upstream_request_filter, (&context, request, body_empty), r),
        context.websocket,
        headers::is_name(name),
        name != "connection"@,
        name != "upgrade"@,
        name != "transfer-encoding"@,
    ensures
        ({
            let before = headers::header_fields(old(request).headers);
            let after = headers::header_fields(final(request).headers);
            let kept = before.contains_key(name) && !headers::field_lists_word(
                before,
                "connection"@,
                name,
            ) && name != "proxy-connection"@ && name != "keep-alive"@ && name
                != "proxy-authenticate"@ && name != "proxy-authorization"@ && name != "te"@ && name
                != "trailer"@;
            &&& before.dom().len() + 2 < 4_096 ==> r is Ok
            &&& r is Ok ==> (after.contains_key(name) <==> kept)
            &&& r is Ok && kept ==> after[name] == before[name]
            &&& r is Ok ==> after.contains_key("connection"@) && after["connection"@] == seq![
                seq![0x55u8, 0x70, 0x67, 0x72, 0x61, 0x64, 0x65],
            ]
            &&& r is Ok ==> after.contains_key("upgrade"@) && after["upgrade"@] == seq![
                seq![0x77u8, 0x65, 0x62, 0x73, 0x6f, 0x63, 0x6b, 0x65, 0x74],
            ]
        }),
{
    let before = headers::header_fields(old(request).headers);
    headers::lemma_connection_names(before, name);
    headers::lemma_upgrade_bytes();
    reveal_strlit("connection");
    reveal_strlit("upgrade");
    reveal_strlit("transfer-encoding");
    assert("transfer-encoding"@.len() != "connection"@.len());
    assert("transfer-encoding"@.len() != "upgrade"@.len());
}

/// A response is taken for the switch to a WebSocket exactly when the request asked for
/// one, its status is 101 and its fields are those of the upgrade. Any other response
/// goes to the client with every field, in all its values, but those that a `Connection`
/// field names and the eight that concern one connection.
pub proof fn law_response_goes_to_its_client_whole(
    context: RequestContext,
    response: &mut ResponseHead,
    r: Result<bool, FieldsFull>,
    name: Seq<char>,
)
    requires
        call_ensures(upstream_response_filter, (&context, response), r),
        headers::is_name(name),
    ensures
        ({
            let before = headers::header_fields(old(response).headers);
            let after = headers::header_fields(final(response).headers);
            let upgraded = context.websocket && old(response).status == 101
                && headers::field_is_word(before, "upgrade"@, "websocket"@)
                && headers::field_lists_word(before, "connection"@, "upgrade"@);
            let kept = before.contains_key(name) && !headers::field_lists_word(
                before,
                "connection"@,
                name,
            ) && name != "proxy-connection"@ && name != "keep-alive"@ && name
                != "proxy-authenticate"@ && name != "te"@ && name != "trailer"@ && name
                != "transfer-encoding"@;
            &&& !upgraded ==> r == Ok::<bool, FieldsFull>(false)
            &&& upgraded && before.dom().len() < 4_096 ==> r == Ok::<bool, FieldsFull>(true)
            &&& r matches Ok(answer) ==> answer == upgraded
            &&& r is Ok && name != "connection"@ && name != "upgrade"@ ==> (after.contains_key(name)
                <==> kept)
            &&& r is Ok && name != "connection"@ && name != "upgrade"@ && kept ==> after[name]
                == before[name]
            &&& !upgraded ==> !after.contains_key("connection"@) && !after.contains_key(
                "upgrade"@,
            )
            &&& r == Ok::<bool, FieldsFull>(true) ==> after.contains_key("connection"@)
                && after["connection"@] == seq![seq![0x55u8, 0x70, 0x67, 0x72, 0x61, 0x64, 0x65]]
            &&& r == Ok::<bool, FieldsFull>(true) ==> after.contains_key("upgrade"@)
                && after["upgrade"@] == seq![
                seq![0x77u8, 0x65, 0x62, 0x73, 0x6f, 0x63, 0x6b, 0x65, 0x74],
            ]
            &&& final(response).status == old(response).status
        }),
{
    let before = headers::header_fields(old(response).headers);
    headers::lemma_connection_names(before, name);
    headers::law_fields_of_an_upgrade(before);
    headers::lemma_upgrade_bytes();
}

/// The log says the same of every request.
pub proof fn law_log_tells_nothing_of_a_request(summary: String)
    requires
        call_ensures(request_summary, (), summary),
    ensures
        summary@ == "proxied request"@,
{
}

/// A gateway has one route for each configured service, in their order, with its host,
/// address, label, check and idle time; every service has its whole idle time before it
/// and can be launched by the first request, and requests are let in.
pub proof fn law_gateway_serves_its_configuration(
    config: Config,
    user_id: u32,
    now: u128,
    proxy: RousedProxy,
    i: int,
)
    requires
        call_ensures(RousedProxy::new, (&config, user_id, now), proxy),
    ensures
        proxy.listener_port == config@.listen.port,
        !proxy.request_gate.closed,
        proxy.request_gate.admitted == 0,
        proxy.routes@.len() == config@.services.len(),
        0 <= i < config@.services.len() ==> {
            let route = proxy.routes@[i];
            let service = config@.services[i];
            &&& route.host@ == service.host
            &&& route.wake.upstream == service.upstream
            &&& route.wake.launchd_label@ == service.launchd_label
            &&& route.lifecycle.launchd_label@ == service.launchd_label
            &&& route.wake.user_id == user_id
            &&& route.lifecycle.user_id == user_id
            &&& route.wake.state is Eligible
            &&& route.lifecycle.idle_timeout == service.idle_timeout_seconds * 1_000_000_000
            &&& route.lifecycle.can_stop_command is Some <==> service.can_stop_command is Some
            &&& route.lifecycle.can_stop_command matches Some(command) ==> {
                &&& command@.len() == service.can_stop_command->0.len()
                &&& forall|k: int|
                    0 <= k < command@.len() ==> (#[trigger] command@[k])@
                        == service.can_stop_command->0[k]
            }
            &&& route.lifecycle.state.in_flight == 0
            &&& !route.lifecycle.state.attempt_in_progress
            &&& route.lifecycle.state.idle_since == now
            &&& route.lifecycle.state.last_completed == now
            &&& route.lifecycle.state.last_check_finished is None
            &&& route.lifecycle.state.stop_attempted_generation is None
        },
{
    if 0 <= i < config@.services.len() {
        let route = proxy.routes@[i];
        assert(is_fresh_route(route, config@.services[i], user_id, now));
        if let Some(command) = route.lifecycle.can_stop_command {
            let all = text::texts(command@);
            assert(config@.services[i].can_stop_command == Some(all));
            assert forall|k: int| 0 <= k < command@.len() implies (#[trigger] command@[k])@
                == all[k] by {}
        }
    }
}

} // verus!
