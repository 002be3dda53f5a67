use http::header::{
    HeaderMap, HeaderName, HeaderValue, ACCEPT, CONNECTION, PROXY_AUTHORIZATION, UPGRADE,
};
use roused::config::Config;
use roused::document::{RawConfig, RawService};
use roused::headers::{
    connection_header_names, has_field, header_contains_token, is_valid_websocket_request,
    is_valid_websocket_response, strip_request_hop_headers, strip_response_hop_headers,
    trim_ascii_whitespace, RequestHead, ResponseHead,
};
use roused::lifecycle::{StopCheckOutcome, StopResult};
use roused::monitor::{CleanupPhase, CLEANUP_TIMEOUT, DRAIN_TIMEOUT};
use roused::plain_http::{serves_connection, Prefix};
use roused::proxy::{
    request_summary, upstream_request_filter, upstream_response_filter, RequestContext,
    RequestDecision, RequestStep, RousedProxy,
};
use roused::response::{
    loading_response, prefers_html_loading, shutting_down_response, unknown_host_response,
    LocalResponse,
};
use roused::wake::LaunchState;

const SECOND: u128 = 1_000_000_000;
const START: u128 = 1_000 * SECOND;

fn request(method: &str) -> RequestHead {
    RequestHead {
        method: method.to_owned(),
        http_11: true,
        headers: HeaderMap::new(),
    }
}

fn response(status: u16) -> ResponseHead {
    ResponseHead {
        status,
        headers: HeaderMap::new(),
    }
}

fn put(headers: &mut HeaderMap, name: &str, value: &str) {
    headers.insert(
        HeaderName::from_bytes(name.as_bytes()).unwrap(),
        HeaderValue::from_str(value).unwrap(),
    );
}

fn append(headers: &mut HeaderMap, name: &str, value: &str) {
    headers.append(
        HeaderName::from_bytes(name.as_bytes()).unwrap(),
        HeaderValue::from_str(value).unwrap(),
    );
}

#[test]
fn ordinary_request_removes_bounded_and_connection_named_headers() {
    let mut request = request("GET");
    put(&mut request.headers, "connection", "keep-alive, x-hop");
    put(&mut request.headers, "x-hop", "remove");
    put(&mut request.headers, "keep-alive", "timeout=5");
    put(&mut request.headers, "proxy-authorization", "runtime-proxy");
    put(&mut request.headers, "authorization", "runtime-origin");

    strip_request_hop_headers(&mut request, false).unwrap();

    for name in [
        CONNECTION,
        PROXY_AUTHORIZATION,
        HeaderName::from_static("x-hop"),
    ] {
        assert!(!request.headers.contains_key(name));
    }
    assert!(request.headers.contains_key("authorization"));
}

#[test]
fn websocket_retains_only_upgrade_hop_headers() {
    let mut request = request("GET");
    put(&mut request.headers, "connection", "Upgrade, x-hop");
    put(&mut request.headers, "upgrade", "websocket");
    put(&mut request.headers, "x-hop", "remove");
    assert!(is_valid_websocket_request(&request));

    strip_request_hop_headers(&mut request, true).unwrap();

    assert_eq!(request.headers[CONNECTION], "Upgrade");
    assert_eq!(request.headers[UPGRADE], "websocket");
    assert!(!request.headers.contains_key("x-hop"));
}

#[test]
fn websocket_response_requires_and_normalizes_upgrade_headers() {
    let mut response = response(101);
    put(&mut response.headers, "connection", "Upgrade, Connection, x-hop");
    put(&mut response.headers, "upgrade", "WebSocket");
    put(&mut response.headers, "x-hop", "remove");
    assert!(is_valid_websocket_response(&response));

    strip_response_hop_headers(&mut response, true).unwrap();

    assert_eq!(response.headers[CONNECTION], "Upgrade");
    assert_eq!(response.headers[UPGRADE], "websocket");
    assert!(!response.headers.contains_key("x-hop"));
}

#[test]
fn response_preserves_repeated_end_to_end_fields() {
    let mut response = response(401);
    append(&mut response.headers, "set-cookie", "one=1");
    append(&mut response.headers, "set-cookie", "two=2; Secure");
    put(&mut response.headers, "www-authenticate", "Basic");
    put(&mut response.headers, "connection", "x-hop");
    put(&mut response.headers, "x-hop", "remove");

    strip_response_hop_headers(&mut response, false).unwrap();

    assert_eq!(response.headers.get_all("set-cookie").iter().count(), 2);
    assert!(response.headers.contains_key("www-authenticate"));
    assert!(!response.headers.contains_key("x-hop"));
}

#[test]
fn loading_html_requires_a_safe_method_and_explicit_html_acceptance() {
    let mut get = request("GET");
    put(&mut get.headers, "accept", "application/json, text/html;q=0.5");
    assert!(prefers_html_loading(&get));

    let mut head = request("HEAD");
    put(&mut head.headers, "accept", "TEXT/HTML");
    assert!(prefers_html_loading(&head));

    let mut api_get = request("GET");
    put(&mut api_get.headers, "accept", "application/json, */*");
    assert!(!prefers_html_loading(&api_get));

    let mut rejected_html = request("GET");
    put(&mut rejected_html.headers, "accept", "text/html;q=0");
    assert!(!prefers_html_loading(&rejected_html));

    let mut post = request("POST");
    put(&mut post.headers, "accept", "text/html");
    assert!(!prefers_html_loading(&post));
}

#[test]
fn every_accept_field_counts_unless_it_is_not_text() {
    let mut get = request("GET");
    append(&mut get.headers, "accept", "application/json");
    append(&mut get.headers, "accept", "text/html");
    assert!(prefers_html_loading(&get));

    let mut opaque = request("GET");
    opaque.headers.insert(
        ACCEPT,
        HeaderValue::from_bytes(b"text/html, \xff").unwrap(),
    );
    assert!(!prefers_html_loading(&opaque));
}

#[test]
fn every_bounded_field_is_removed_and_all_others_stay() {
    let bounded = [
        "connection",
        "upgrade",
        "proxy-connection",
        "keep-alive",
        "proxy-authenticate",
        "te",
        "trailer",
        "transfer-encoding",
    ];
    let kept = ["host", "authorization", "cookie", "content-length", "x-a"];
    let mut sent = request("POST");
    let mut received = response(200);
    for name in bounded.into_iter().chain(kept) {
        append(&mut sent.headers, name, "one");
        append(&mut sent.headers, name, "two");
        append(&mut received.headers, name, "one");
        append(&mut received.headers, name, "two");
    }
    put(&mut received.headers, "proxy-authorization", "stays");
    strip_request_hop_headers(&mut sent, false).unwrap();
    strip_response_hop_headers(&mut received, false).unwrap();
    for name in bounded {
        assert!(!sent.headers.contains_key(name), "{name}");
        assert!(!received.headers.contains_key(name), "{name}");
    }
    for name in kept {
        let values: Vec<_> = sent.headers.get_all(name).iter().collect();
        assert_eq!(values, ["one", "two"], "{name}");
        let values: Vec<_> = received.headers.get_all(name).iter().collect();
        assert_eq!(values, ["one", "two"], "{name}");
    }
    assert!(received.headers.contains_key("proxy-authorization"));
    assert_eq!(sent.headers.keys_len(), kept.len());
    let before = sent.headers.clone();
    strip_request_hop_headers(&mut sent, false).unwrap();
    assert_eq!(sent.headers, before);
}

#[test]
fn connection_names_are_trimmed_and_folded() {
    let mut headers = HeaderMap::new();
    append(&mut headers, "connection", " X-One ,\tx-two, , bad name, close");
    append(&mut headers, "connection", "X-ONE");
    assert_eq!(
        connection_header_names(&headers),
        ["x-one", "x-two", "close", "x-one"]
    );
    assert!(header_contains_token(&headers, "connection", b"CLOSE"));
    assert!(header_contains_token(&headers, "connection", b"bad name"));
    assert!(!header_contains_token(&headers, "connection", b"clos"));
    assert!(!header_contains_token(&headers, "upgrade", b"close"));
    assert!(has_field(&headers, "connection"));
    assert!(!has_field(&headers, "upgrade"));
    assert_eq!(trim_ascii_whitespace(b" \t\r\n\x0cab c\x0c "), b"ab c");
    assert_eq!(trim_ascii_whitespace(b" \x0b "), b"\x0b");
    assert_eq!(trim_ascii_whitespace(b"   "), b"");
}

#[test]
fn connection_names_keep_their_order_and_repeats() {
    let mut headers = HeaderMap::new();
    append(&mut headers, "connection", "x-b, X-A,, bad name, x-b");
    append(&mut headers, "connection", "close");
    append(&mut headers, "connection", "x-a");
    assert_eq!(
        connection_header_names(&headers),
        ["x-b", "x-a", "x-b", "close", "x-a"]
    );
}

#[test]
fn field_names_of_every_byte_are_told_apart() {
    for byte in 0x20..=0x7eu8 {
        let mut headers = HeaderMap::new();
        let value = [b'x', byte, b'y'];
        headers.insert(CONNECTION, HeaderValue::from_bytes(&value).unwrap());
        let expected: Vec<String> = value
            .split(|b| *b == b',')
            .filter_map(|name| HeaderName::from_bytes(name).ok())
            .map(|name| name.as_str().to_owned())
            .collect();
        assert_eq!(connection_header_names(&headers), expected, "{byte:x}");
    }
}

#[test]
fn an_upgrade_needs_both_fields_the_version_and_the_status() {
    let mut asked = request("GET");
    put(&mut asked.headers, "connection", "keep-alive, UPGRADE");
    assert!(!is_valid_websocket_request(&asked));
    put(&mut asked.headers, "upgrade", "websocket, h2c");
    assert!(!is_valid_websocket_request(&asked));
    put(&mut asked.headers, "upgrade", "WebSocket");
    assert!(is_valid_websocket_request(&asked));
    asked.http_11 = false;
    assert!(!is_valid_websocket_request(&asked));

    let mut answered = response(101);
    answered.headers = asked.headers.clone();
    assert!(is_valid_websocket_response(&answered));
    answered.status = 200;
    assert!(!is_valid_websocket_response(&answered));
    answered.status = 101;
    put(&mut answered.headers, "connection", "close");
    assert!(!is_valid_websocket_response(&answered));
}

fn fields(response: &LocalResponse) -> Vec<(&str, &str)> {
    response
        .fields
        .iter()
        .map(|(name, value)| (*name, value.as_str()))
        .collect()
}

#[test]
fn the_gateway_answers_for_itself() {
    let shutting_down = shutting_down_response(&request("POST"));
    assert_eq!(shutting_down.status, 503);
    assert_eq!(
        fields(&shutting_down),
        [
            ("Content-Type", "text/plain; charset=utf-8"),
            ("Cache-Control", "no-store"),
            ("Content-Length", "22"),
        ]
    );
    assert_eq!(shutting_down.body, "gateway shutting down\n");
    assert!(!shutting_down.omit_body);
    assert!(shutting_down_response(&request("HEAD")).omit_body);

    let unknown = unknown_host_response();
    assert_eq!(unknown.status, 421);
    assert_eq!(
        fields(&unknown),
        [
            ("Content-Type", "text/plain; charset=utf-8"),
            ("Cache-Control", "no-store"),
            ("Content-Length", "13"),
        ]
    );
    assert_eq!(unknown.body, "unknown host\n");
    assert!(!unknown.omit_body);

    let json = loading_response(&request("GET"));
    assert_eq!(json.status, 503);
    assert_eq!(
        fields(&json),
        [
            ("Content-Type", "application/json"),
            ("Retry-After", "5"),
            ("Cache-Control", "no-store"),
            ("Content-Length", "37"),
        ]
    );
    assert_eq!(json.body, "{\"status\":\"loading\",\"retry_after\":5}\n");

    let mut head = request("HEAD");
    put(&mut head.headers, "accept", "text/html");
    let html = loading_response(&head);
    assert_eq!(html.status, 503);
    assert_eq!(fields(&html)[0], ("Content-Type", "text/html; charset=utf-8"));
    assert_eq!(html.body.len(), 158);
    assert_eq!(fields(&html)[3], ("Content-Length", "158"));
    assert!(html.body.starts_with("<!doctype html>"));
    assert!(html.omit_body);
}

fn service(host: &str, upstream: &str, label: &str, idle: u64) -> RawService {
    RawService {
        host: host.to_owned(),
        upstream: upstream.to_owned(),
        launchd_label: label.to_owned(),
        idle_timeout_seconds: idle,
        can_stop_command: None,
    }
}

fn gateway() -> RousedProxy {
    let raw = RawConfig {
        listen: "127.0.0.1:8080".to_owned(),
        services: vec![
            service("b.test", "127.0.0.1:9002", "net.b", 20),
            service("a.test", "127.0.0.1:9001", "net.a", 10),
        ],
    };
    match Config::from_raw(raw) {
        Ok(config) => RousedProxy::new(&config, 501, START),
        Err(error) => panic!("{}", error.message()),
    }
}

fn asking(host: &str) -> RequestHead {
    let mut request = request("GET");
    put(&mut request.headers, "host", host);
    request
}

fn forwarded(proxy: &mut RousedProxy, host: &str, now: u128) -> RequestContext {
    let head = asking(host);
    let mut context = proxy.new_ctx();
    match proxy.request_filter_at(&head, &mut context, now) {
        RequestStep::Probe(route) => {
            match proxy.readiness_known_at(&head, &mut context, route, true, now) {
                RequestDecision::Forward => {}
                RequestDecision::Respond(..) => panic!("not forwarded"),
            }
        }
        RequestStep::Respond(_) => panic!("not routed"),
    }
    proxy.proxy_upstream_filter_at(&mut context, now).unwrap();
    context
}

#[test]
fn a_gateway_starts_with_fresh_services() {
    let proxy = gateway();
    assert_eq!(proxy.listener_port, 8080);
    assert_eq!(proxy.routes.len(), 2);
    assert_eq!(proxy.routes[0].host, "a.test");
    assert_eq!(proxy.routes[1].host, "b.test");
    assert_eq!(proxy.routes[0].lifecycle.idle_timeout, 10 * SECOND);
    assert_eq!(proxy.routes[0].lifecycle.state.idle_since, START);
    assert_eq!(proxy.routes[1].wake.state, LaunchState::Eligible);
    assert_eq!(proxy.routes[1].wake.launchd_label, "net.b");
    assert!(!proxy.request_gate.closed);
    assert_eq!(request_summary(), "proxied request");
}

#[test]
fn a_request_holds_a_lease_until_it_ends() {
    let mut proxy = gateway();
    let mut context = forwarded(&mut proxy, "A.test.:8080", START + SECOND);
    assert_eq!(context.route, Some(0));
    assert_eq!(proxy.request_gate.admitted, 0);
    assert_eq!(proxy.routes[0].lifecycle.state.in_flight, 1);
    assert_eq!(proxy.routes[1].lifecycle.state.in_flight, 0);
    assert_eq!(
        proxy.upstream_peer(&context).unwrap(),
        proxy.routes[0].wake.upstream
    );
    assert_eq!(
        proxy
            .proxy_upstream_filter_at(&mut context, START + 2 * SECOND)
            .unwrap_err(),
        "service lease acquired more than once"
    );
    proxy.logging_at(&mut context, START + 3 * SECOND);
    assert_eq!(proxy.routes[0].lifecycle.state.in_flight, 0);
    assert_eq!(
        proxy.routes[0].lifecycle.state.last_completed,
        START + 3 * SECOND
    );
    proxy.logging_at(&mut context, START + 4 * SECOND);
    assert_eq!(
        proxy.routes[0].lifecycle.state.last_completed,
        START + 3 * SECOND
    );
}

#[test]
fn a_request_without_a_route_is_not_forwarded() {
    let mut proxy = gateway();
    let mut context = proxy.new_ctx();
    assert_eq!(
        proxy.upstream_peer(&context).unwrap_err(),
        "route missing after request filtering"
    );
    assert_eq!(
        proxy
            .proxy_upstream_filter_at(&mut context, START)
            .unwrap_err(),
        "route missing before upstream proxying"
    );
    for head in [asking("c.test"), asking("a.test:8081"), request("GET")] {
        let mut context = proxy.new_ctx();
        let before = proxy.request_gate.admitted;
        match proxy.request_filter_at(&head, &mut context, START) {
            RequestStep::Respond(response) => assert_eq!(response.status, 421),
            RequestStep::Probe(_) => panic!("routed"),
        }
        assert!(context.admission.is_none());
        assert_eq!(proxy.request_gate.admitted, before - 1);
    }
    let mut opaque = request("GET");
    opaque.headers.insert(
        http::header::HOST,
        HeaderValue::from_bytes(b"a.test\xff").unwrap(),
    );
    let mut context = proxy.new_ctx();
    assert!(matches!(
        proxy.request_filter_at(&opaque, &mut context, START),
        RequestStep::Respond(_)
    ));
}

#[test]
fn a_cold_request_is_answered_and_launches_once() {
    let mut proxy = gateway();
    let head = asking("b.test");
    let mut launches = 0;
    for _ in 0..5 {
        let mut context = proxy.new_ctx();
        match proxy.request_filter_at(&head, &mut context, START) {
            RequestStep::Probe(1) => {}
            _ => panic!("not routed"),
        }
        match proxy.readiness_known_at(&head, &mut context, 1, false, START) {
            RequestDecision::Respond(response, command) => {
                assert_eq!(response.status, 503);
                if let Some(spec) = command {
                    launches += 1;
                    assert_eq!(spec.arguments[1], "gui/501/net.b");
                }
            }
            RequestDecision::Forward => panic!("forwarded"),
        }
        proxy.logging_at(&mut context, START);
    }
    assert_eq!(launches, 1);
    assert_eq!(proxy.request_gate.admitted, 0);
    assert_eq!(proxy.routes[1].lifecycle.state.in_flight, 0);
    assert_eq!(proxy.routes[1].lifecycle.state.generation, 5);
    proxy.launch_finished_at(1, START);
    assert_eq!(
        proxy.routes[1].wake.state,
        LaunchState::CoolingDownUntil(START + 5 * SECOND)
    );
}

#[test]
fn bodies_without_a_length_are_framed_anew() {
    let mut proxy = gateway();
    let context = proxy.new_ctx();
    let mut head = asking("a.test");
    put(&mut head.headers, "transfer-encoding", "gzip, chunked");
    upstream_request_filter(&context, &mut head, false).unwrap();
    assert_eq!(head.headers["transfer-encoding"], "chunked");
    assert_eq!(head.headers["host"], "a.test");

    let mut head = asking("a.test");
    put(&mut head.headers, "content-length", "3");
    upstream_request_filter(&context, &mut head, false).unwrap();
    assert!(!head.headers.contains_key("transfer-encoding"));

    let mut head = asking("a.test");
    upstream_request_filter(&context, &mut head, true).unwrap();
    assert!(!head.headers.contains_key("transfer-encoding"));
}

#[test]
fn a_websocket_is_told_from_an_ordinary_response() {
    let mut proxy = gateway();
    let mut head = asking("a.test");
    put(&mut head.headers, "connection", "upgrade");
    put(&mut head.headers, "upgrade", "websocket");
    let mut context = proxy.new_ctx();
    proxy.request_filter_at(&head, &mut context, START);
    assert!(context.websocket);
    upstream_request_filter(&context, &mut head, true).unwrap();
    assert_eq!(head.headers["connection"], "Upgrade");

    let mut switching = response(101);
    put(&mut switching.headers, "connection", "upgrade");
    put(&mut switching.headers, "upgrade", "websocket");
    assert_eq!(
        upstream_response_filter(&context, &mut switching),
        Ok(true)
    );
    let mut refused = response(400);
    put(&mut refused.headers, "connection", "upgrade");
    assert_eq!(upstream_response_filter(&context, &mut refused), Ok(false));
    assert!(!refused.headers.contains_key("connection"));
}

#[test]
fn no_request_is_let_in_after_shutdown_has_begun() {
    let mut proxy = gateway();
    let mut early = proxy.new_ctx();
    proxy.shutdown_handle().begin_shutdown();
    proxy.shutdown_handle().begin_shutdown();
    assert_eq!(proxy.request_gate.admitted, 1);
    let mut late = proxy.new_ctx();
    assert!(late.rejected_for_shutdown);
    assert_eq!(proxy.request_gate.admitted, 1);
    match proxy.request_filter_at(&asking("a.test"), &mut late, START) {
        RequestStep::Respond(response) => {
            assert_eq!(response.status, 503);
            assert_eq!(response.body, "gateway shutting down\n");
        }
        RequestStep::Probe(_) => panic!("let in"),
    }
    assert!(matches!(
        proxy.request_filter_at(&asking("a.test"), &mut early, START),
        RequestStep::Probe(0)
    ));
}

#[test]
fn a_shutdown_is_not_taken_back() {
    let mut proxy = gateway();
    let mut monitor = proxy.idle_monitor();
    let mut early = proxy.new_ctx();
    proxy.shutdown_handle().begin_shutdown();
    assert!(matches!(
        proxy.request_filter_at(&asking("a.test"), &mut early, START),
        RequestStep::Probe(0)
    ));
    assert!(matches!(
        proxy.readiness_known_at(&asking("a.test"), &mut early, 0, true, START),
        RequestDecision::Forward
    ));
    proxy.proxy_upstream_filter_at(&mut early, START).unwrap();
    proxy.logging_at(&mut early, START + SECOND);
    proxy.launch_finished_at(1, START + SECOND);
    let orders = monitor.scan_at(&mut proxy, START + SECOND);
    assert_eq!(orders.len(), 2);
    proxy.conclude_stop_at(
        &orders[0],
        StopCheckOutcome::Allowed,
        START + SECOND,
        || true,
    );
    assert!(proxy.request_gate.closed);
    assert_eq!(proxy.request_gate.admitted, 0);
    let late = proxy.new_ctx();
    assert!(late.rejected_for_shutdown);
    assert!(late.admission.is_none());
}

#[test]
fn idle_services_are_ordered_to_stop() {
    let mut proxy = gateway();
    let mut monitor = proxy.idle_monitor();
    assert!(monitor
        .scan_at(&mut proxy, START + 10 * SECOND - 1)
        .is_empty());
    let orders = monitor.scan_at(&mut proxy, START + 10 * SECOND);
    assert_eq!(orders.len(), 1);
    assert_eq!(orders[0].route, 0);
    assert!(!orders[0].attempt.shutdown);
    assert!(monitor
        .scan_at(&mut proxy, START + 11 * SECOND)
        .is_empty());
    assert_eq!(
        proxy.stop_command_spec(0).arguments[2],
        "gui/501/net.a"
    );
    let result = proxy.conclude_stop_at(
        &orders[0],
        StopCheckOutcome::Allowed,
        START + 11 * SECOND,
        || true,
    );
    assert_eq!(result, StopResult::Stopped);
    monitor.attempt_ended(&proxy, 0);
    assert_eq!(monitor.phases[0], CleanupPhase::Waiting);
    let orders = monitor.scan_at(&mut proxy, START + 60 * SECOND);
    assert_eq!(orders.len(), 1);
    assert_eq!(orders[0].route, 1);
}

#[test]
fn a_shutdown_stops_drained_services_once() {
    let mut proxy = gateway();
    let mut monitor = proxy.idle_monitor();
    let mut busy = forwarded(&mut proxy, "b.test", START);
    proxy.shutdown_handle().begin_shutdown();

    let orders = monitor.scan_at(&mut proxy, START + SECOND);
    assert_eq!(orders.len(), 1);
    assert_eq!(orders[0].route, 0);
    assert!(orders[0].attempt.shutdown);
    let result = proxy.conclude_stop_at(
        &orders[0],
        StopCheckOutcome::Vetoed,
        START + SECOND,
        || panic!("a vetoed stop was started"),
    );
    assert_eq!(result, StopResult::Vetoed);
    monitor.attempt_ended(&proxy, 0);
    assert!(!monitor.cleanup_finished());

    proxy.logging_at(&mut busy, START + 2 * SECOND);
    let orders = monitor.scan_at(&mut proxy, START + 2 * SECOND);
    assert_eq!(orders.len(), 1);
    assert_eq!(orders[0].route, 1);
    assert_eq!(
        proxy.conclude_stop_at(
            &orders[0],
            StopCheckOutcome::Allowed,
            START + 2 * SECOND,
            || true,
        ),
        StopResult::Stopped
    );
    assert!(!monitor.cleanup_finished());
    monitor.attempt_ended(&proxy, 1);
    assert!(monitor.cleanup_finished());
    assert!(monitor
        .scan_at(&mut proxy, START + 3 * SECOND)
        .is_empty());
}

#[test]
fn a_shutdown_leaves_undrained_services_running() {
    let mut proxy = gateway();
    let mut monitor = proxy.idle_monitor();
    let _busy = forwarded(&mut proxy, "a.test", START);
    proxy.routes[1].wake.state = LaunchState::Launching;
    proxy.shutdown_handle().begin_shutdown();
    assert!(monitor.scan_at(&mut proxy, START).is_empty());
    assert!(monitor
        .scan_at(&mut proxy, START + DRAIN_TIMEOUT)
        .is_empty());
    assert!(!monitor.cleanup_finished());
    assert!(monitor
        .scan_at(&mut proxy, START + DRAIN_TIMEOUT + 1)
        .is_empty());
    assert!(monitor.cleanup_finished());
    assert_eq!(DRAIN_TIMEOUT, 5 * SECOND);
    assert_eq!(CLEANUP_TIMEOUT, 20 * SECOND);
}

#[test]
fn a_stop_under_way_is_awaited_and_not_repeated() {
    let mut proxy = gateway();
    let mut monitor = proxy.idle_monitor();
    let orders = monitor.scan_at(&mut proxy, START + 10 * SECOND);
    assert_eq!(orders.len(), 1);
    proxy.shutdown_handle().begin_shutdown();
    let more = monitor.scan_at(&mut proxy, START + 11 * SECOND);
    assert_eq!(more.len(), 1);
    assert_eq!(more[0].route, 1);
    monitor.attempt_ended(&proxy, 1);
    assert!(!monitor.cleanup_finished());
    assert_eq!(
        proxy.conclude_stop_at(
            &orders[0],
            StopCheckOutcome::Allowed,
            START + 12 * SECOND,
            || true,
        ),
        StopResult::Stopped
    );
    monitor.attempt_ended(&proxy, 0);
    assert!(monitor.cleanup_finished());
}

#[test]
fn an_idle_service_is_stopped_again_while_an_older_stop_command_runs() {
    let mut proxy = gateway();
    let mut monitor = proxy.idle_monitor();
    let first = monitor.scan_at(&mut proxy, START + 10 * SECOND);
    assert_eq!(first.len(), 1);
    assert_eq!(
        proxy.conclude_stop_at(
            &first[0],
            StopCheckOutcome::Allowed,
            START + 10 * SECOND,
            || true,
        ),
        StopResult::Stopped
    );
    for host in ["a.test", "b.test"] {
        let mut context = forwarded(&mut proxy, host, START + 11 * SECOND);
        proxy.logging_at(&mut context, START + 11 * SECOND);
    }
    assert!(monitor
        .scan_at(&mut proxy, START + 21 * SECOND - 1)
        .is_empty());
    let second = monitor.scan_at(&mut proxy, START + 21 * SECOND);
    assert_eq!(second.len(), 1);
    assert_eq!(second[0].route, 0);
    assert_eq!(monitor.running[0], 2);

    proxy.shutdown_handle().begin_shutdown();
    let others = monitor.scan_at(&mut proxy, START + 21 * SECOND);
    assert_eq!(others.len(), 1);
    assert_eq!(others[0].route, 1);
    monitor.attempt_ended(&proxy, 1);
    monitor.attempt_ended(&proxy, 0);
    assert!(!monitor.cleanup_finished());
    monitor.attempt_ended(&proxy, 0);
    assert!(monitor.cleanup_finished());
}

#[test]
fn the_drain_time_is_judged_by_when_a_service_drained() {
    for (late, stopped) in [(0, true), (1, false)] {
        let drained = START + DRAIN_TIMEOUT + late;
        let seen = START + DRAIN_TIMEOUT + SECOND / 10;

        let mut proxy = gateway();
        let mut monitor = proxy.idle_monitor();
        let mut busy = forwarded(&mut proxy, "a.test", START);
        proxy.shutdown_handle().begin_shutdown();
        assert_eq!(monitor.scan_at(&mut proxy, START).len(), 1);
        proxy.logging_at(&mut busy, drained);
        assert_eq!(monitor.scan_at(&mut proxy, seen).len() == 1, stopped);

        let mut proxy = gateway();
        let mut monitor = proxy.idle_monitor();
        proxy.routes[0].wake.state = LaunchState::Launching;
        proxy.shutdown_handle().begin_shutdown();
        assert_eq!(monitor.scan_at(&mut proxy, START).len(), 1);
        proxy.launch_finished_at(0, drained);
        assert_eq!(monitor.scan_at(&mut proxy, seen).len() == 1, stopped);

        let mut proxy = gateway();
        let mut monitor = proxy.idle_monitor();
        let mut admitted = proxy.new_ctx();
        proxy.shutdown_handle().begin_shutdown();
        assert!(monitor.scan_at(&mut proxy, START).is_empty());
        proxy.logging_at(&mut admitted, drained);
        assert_eq!(monitor.scan_at(&mut proxy, seen).len() == 2, stopped);
    }
}

#[test]
fn an_admitted_request_holds_up_every_stop() {
    let mut proxy = gateway();
    let mut monitor = proxy.idle_monitor();
    let mut admitted = proxy.new_ctx();
    proxy.shutdown_handle().begin_shutdown();
    assert!(monitor.scan_at(&mut proxy, START).is_empty());
    proxy.logging_at(&mut admitted, START);
    assert_eq!(monitor.scan_at(&mut proxy, START).len(), 2);
}

#[test]
fn a_late_launch_discards_a_shutdown_stop() {
    let mut proxy = gateway();
    let mut monitor = proxy.idle_monitor();
    proxy.shutdown_handle().begin_shutdown();
    let orders = monitor.scan_at(&mut proxy, START);
    proxy.routes[0].wake.state = LaunchState::Launching;
    assert_eq!(
        proxy.conclude_stop_at(&orders[0], StopCheckOutcome::Allowed, START, || true),
        StopResult::Discarded
    );
}

#[test]
fn tls_handshakes_are_not_served() {
    assert!(!serves_connection(Prefix::Seen(0x16, 0x03)));
    assert!(serves_connection(Prefix::Seen(0x16, 0x04)));
    assert!(serves_connection(Prefix::Seen(b'G', b'E')));
    assert!(serves_connection(Prefix::Unseen));
    assert!(!serves_connection(Prefix::Failed));
}
