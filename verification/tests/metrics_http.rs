//! The operations endpoint.

use ironcache::metrics_http::{
    gauges, http_response, parse_request_line, LeaderView, MetricsState, RaftGauges, ReadyState,
    RequestStep,
    MAX_REQUEST_BYTES,
};
use ironcache::persist::PersistState;

const EXPOSITION: &str = "# TYPE ironcache_commands_processed_total counter
ironcache_commands_processed_total 8
ironcache_shard_commands_processed_total{shard=\"0\"} 5
ironcache_shard_commands_processed_total{shard=\"1\"} 3
ironcache_uptime_seconds 0
";

const TOPOLOGY: &str = "{\"schema_version\":1,\"node\":{\"id\":\"test-node-id\"},\"mode\":\"none\",\"slots\":[{\"start\":0,\"end\":16383,\"owner_id\":\"test-node-id\"}],\"raft\":null}";

/// A node with two shards: loading is not done until both have signalled.
fn test_state() -> MetricsState {
    MetricsState {
        live: false,
        ready: ReadyState::with_shards(2),
        leader: LeaderView::NotGoverned,
        metrics: EXPOSITION.as_bytes().to_vec(),
        topology: TOPOLOGY.as_bytes().to_vec(),
    }
}

#[test]
fn metrics_route_returns_prometheus_text() {
    let state = test_state();
    let resp = state.respond("GET", "/metrics");
    let text = String::from_utf8(resp).unwrap();
    assert!(text.starts_with("HTTP/1.1 200 OK\r\n"), "{text}");
    assert!(
        text.contains("Content-Type: text/plain; version=0.0.4"),
        "{text}"
    );
    assert!(
        text.contains("# TYPE ironcache_commands_processed_total counter"),
        "{text}"
    );
    assert!(
        text.contains("ironcache_commands_processed_total 8\n"),
        "{text}"
    );
    assert!(
        text.contains("ironcache_shard_commands_processed_total{shard=\"0\"} 5\n"),
        "{text}"
    );
    assert!(
        text.contains("ironcache_shard_commands_processed_total{shard=\"1\"} 3\n"),
        "{text}"
    );
    assert!(text.contains("ironcache_uptime_seconds"), "{text}");
}

#[test]
fn topology_endpoint_serves_json_with_a_coherent_standalone_answer() {
    let state = test_state();
    let resp = String::from_utf8(state.respond("GET", "/topology")).unwrap();
    assert!(resp.starts_with("HTTP/1.1 200 OK\r\n"), "{resp}");
    assert!(
        resp.contains("Content-Type: application/json"),
        "topology is served as JSON: {resp}"
    );
    let body = resp.split("\r\n\r\n").nth(1).unwrap_or("");
    // Standalone (test_state has no cluster map): node identity + a single-node slot answer.
    assert!(body.starts_with("{\"schema_version\":1,"), "{body}");
    assert!(body.contains("\"id\":\"test-node-id\""), "{body}");
    assert!(body.contains("\"mode\":\"none\""), "{body}");
    assert!(
        body.contains("\"start\":0,\"end\":16383,\"owner_id\":\"test-node-id\""),
        "self owns all slots: {body}"
    );
    assert!(body.contains("\"raft\":null"), "{body}");
}

#[test]
fn livez_flips_with_the_live_flag() {
    let mut state = test_state();
    let before = String::from_utf8(state.respond("GET", "/livez")).unwrap();
    assert!(before.starts_with("HTTP/1.1 503"), "{before}");
    state.live = true;
    let after = String::from_utf8(state.respond("GET", "/livez")).unwrap();
    assert!(after.starts_with("HTTP/1.1 200 OK"), "{after}");
}

#[test]
fn readyz_503_before_ready_200_after() {
    let mut state = test_state();
    let before = String::from_utf8(state.respond("GET", "/readyz")).unwrap();
    assert!(before.starts_with("HTTP/1.1 503"), "{before}");
    assert!(before.contains("load-on-boot incomplete"), "{before}");
    // Two shards: readiness flips to 200 only after BOTH have signalled their load complete.
    state.ready.signal_shard_loaded();
    let after_one = String::from_utf8(state.respond("GET", "/readyz")).unwrap();
    assert!(
        after_one.starts_with("HTTP/1.1 503"),
        "one of two shards loaded: still not ready -- {after_one}"
    );
    state.ready.signal_shard_loaded();
    let after = String::from_utf8(state.respond("GET", "/readyz")).unwrap();
    assert!(after.starts_with("HTTP/1.1 200 OK"), "{after}");
}

#[test]
fn load_done_countdown_reaches_zero() {
    // The per-shard countdown: load_done is false until every shard has signalled, and a
    // defensive over-signal cannot underflow it back to "not done".
    let mut ready = ReadyState::with_shards(3);
    assert!(!ready.load_done(), "3 pending");
    ready.signal_shard_loaded();
    assert!(!ready.load_done(), "2 pending");
    ready.signal_shard_loaded();
    assert!(!ready.load_done(), "1 pending");
    ready.signal_shard_loaded();
    assert!(ready.load_done(), "0 pending -> done");
    // Over-signal: saturating, so it stays done (never wraps to a huge pending count).
    ready.signal_shard_loaded();
    assert!(ready.load_done(), "over-signal stays done");
}

#[test]
fn zero_shard_ready_state_is_done() {
    // A degenerate zero-shard node has nothing to load: load-on-boot reads as already done.
    let ready = ReadyState::with_shards(0);
    assert!(ready.load_done());
    assert!(ReadyState::default().load_done());
}

#[test]
fn unknown_path_is_404() {
    let state = test_state();
    let resp = String::from_utf8(state.respond("GET", "/nope")).unwrap();
    assert!(resp.starts_with("HTTP/1.1 404 Not Found"), "{resp}");
}

#[test]
fn non_get_is_405() {
    let state = test_state();
    let resp = String::from_utf8(state.respond("POST", "/metrics")).unwrap();
    assert!(resp.starts_with("HTTP/1.1 405"), "{resp}");
}

#[test]
fn query_string_is_stripped() {
    let mut state = test_state();
    state.live = true;
    let resp = String::from_utf8(state.respond("GET", "/livez?foo=bar")).unwrap();
    assert!(resp.starts_with("HTTP/1.1 200 OK"), "{resp}");
}

#[test]
fn request_line_parse_incomplete_then_complete() {
    // No newline yet -> None (read more).
    assert!(parse_request_line(b"GET /metrics HTTP/1.1").is_none());
    // CRLF-terminated -> parsed.
    let (m, p) = parse_request_line(b"GET /metrics HTTP/1.1\r\nHost: x\r\n\r\n").unwrap();
    assert_eq!(m, "GET");
    assert_eq!(p, "/metrics");
    // Bare LF tolerated.
    let (m, p) = parse_request_line(b"GET /livez HTTP/1.1\n").unwrap();
    assert_eq!(m, "GET");
    assert_eq!(p, "/livez");
}

#[test]
fn a_node_without_a_leader_is_not_ready() {
    let mut state = test_state();
    state.ready = ReadyState::with_shards(0);
    state.leader = LeaderView::NoLeader;
    assert_eq!(state.readiness(), Err("raft: no leader recognized"));
    let resp = String::from_utf8(state.respond("GET", "/readyz")).unwrap();
    assert!(resp.ends_with("\r\n\r\nnot ready: raft: no leader recognized\n"), "{resp}");
    state.leader = LeaderView::Recognized;
    assert_eq!(state.readiness(), Ok(()));
    // While it loads, that is the reason.
    state.leader = LeaderView::NoLeader;
    state.ready = ReadyState::with_shards(1);
    assert_eq!(state.readiness(), Err("load-on-boot incomplete"));
}

#[test]
fn a_response_states_its_length_and_closes() {
    assert_eq!(
        http_response(200, "OK", "text/plain", b"hello"),
        b"HTTP/1.1 200 OK\r\nContent-Type: text/plain\r\nContent-Length: 5\r\nConnection: close\r\n\r\nhello"
    );
}

#[test]
fn a_request_is_read_until_its_line_ends_or_it_is_too_large() {
    let mut state = test_state();
    state.live = true;
    assert!(matches!(state.on_request_bytes(b"GET /livez HT"), RequestStep::ReadMore));
    match state.on_request_bytes(b"GET /livez HTTP/1.1\r\n") {
        RequestStep::Answer(a) => assert_eq!(a, state.respond("GET", "/livez")),
        RequestStep::ReadMore => panic!("the line is complete"),
    }
    let big = vec![b'x'; MAX_REQUEST_BYTES + 1];
    match state.on_request_bytes(&big) {
        RequestStep::Answer(a) => assert!(a.starts_with(b"HTTP/1.1 413 ")),
        RequestStep::ReadMore => panic!("too large"),
    }
}

#[test]
fn a_request_line_that_is_no_text_is_read_with_replacement_characters() {
    let (m, p) = parse_request_line(b"GET /\xff HTTP/1.1\n").unwrap();
    assert_eq!(m, "GET");
    assert_eq!(p, "/\u{fffd}");
}

#[test]
fn the_gauges_show_what_the_node_owes_its_disk() {
    let raft = RaftGauges { is_leader: true, current_term: 3, commit_index: 9, voters: 5 };
    let g = gauges(60, 4, (100, 200), 0, None, Some(raft));
    assert_eq!((g.last_save_unix, g.rdb_changes_since_save), (0, 0));
    assert_eq!((g.uptime_secs, g.shards, g.used_memory, g.used_memory_rss), (60, 4, 100, 200));
    assert_eq!(g.raft, Some(raft));
    let mut p = PersistState::from_config(Some("/data"), None, None, None, 1).unwrap();
    p.record_committed(7);
    p.note_write();
    let g = gauges(60, 4, (100, 200), 5, Some(&p), None);
    assert_eq!((g.last_save_unix, g.rdb_changes_since_save, g.maxmemory), (7, 1, 5));
}

#[test]
fn a_line_of_another_shape_has_no_method() {
    let line = |text: &str| parse_request_line(text.as_bytes()).unwrap();
    assert_eq!(line("garbage\r\n"), (String::new(), String::new()));
    assert_eq!(line("\n"), (String::new(), String::new()));
    for text in [
        "GET /livez\r\n",
        "GET /livez HTTP/1.1 more\r\n",
        "GET /livez HTTP/11\r\n",
        "GET /livez http/1.1\r\n",
        "GET  HTTP/1.1\r\n",
        " /livez HTTP/1.1\r\n",
    ] {
        assert_eq!(line(text).0, "", "{text:?}");
    }
    assert_eq!(line("GET /livez HTTP/1.0\r\n"), ("GET".to_owned(), "/livez".to_owned()));
}
