use rusty_time::api::ControlRequest;
use rusty_time::control::{
    handle, poll_log2_of, ControlResponse, ControlState, Role, TrackingState,
};
use rusty_time::policy::RateLimitConfig;
use rusty_time::reply::ServerState;
use rusty_time::server::ClientTable;
use std::collections::hash_map::RandomState;

const S: u64 = 1_000_000_000;
const VERSION: &str = "0.1.0";

type Server = ServerState<u32, RandomState>;
type Response = ControlResponse<u32>;

fn server() -> Server {
    ServerState {
        clients: ClientTable::new(64, RateLimitConfig::default()),
        stratum: 2,
        started_unix: 1_000,
    }
}

fn ask(request: ControlRequest, state: &ControlState<u32, RandomState>) -> Response {
    handle(&request, state, &vec![0xABCD], 1_500, 100 * S, VERSION)
}

fn ps(s: f64) -> i128 {
    (s * 1e12).round() as i128
}

#[test]
fn tracking_starts_unsynchronized_with_an_infinite_bound() {
    let t = TrackingState::unsynchronized(0);
    let r = t.snapshot(0);
    assert!(!r.synchronized);
    assert!(r.error_bound.is_none());
}

#[test]
fn publish_then_snapshot_reports_what_the_controller_decided() {
    let mut t = TrackingState::unsynchronized(0);
    t.publish(true, ps(0.004), 1_250_000_000, Some(ps(0.02) as u128), 64 * S, S);
    let r = t.snapshot(2 * S);
    assert!(r.synchronized);
    assert_eq!(r.offset, ps(0.004));
    assert_eq!(r.freq_ppq, 1_250_000_000);
    let bound = r.error_bound.expect("bound");
    assert!(bound >= ps(0.02) as u128);
    assert!(bound < ps(0.03) as u128);
    assert_eq!(r.poll_log2, 6, "2^6 = 64 s");
}

#[test]
fn a_stalled_loop_stops_claiming_synchronized() {
    let mut t = TrackingState::unsynchronized(0);
    t.publish(true, ps(0.004), 1_250_000_000, Some(ps(0.02) as u128), 16 * S, 0);
    assert!(t.snapshot(0).synchronized);
    let stale = t.snapshot(600 * S);
    assert!(!stale.synchronized, "a stalled loop must not report synchronized");
    assert!(stale.error_bound > Some(ps(0.02) as u128), "and its bound must have grown");
    // 100 parts per million of 600 s.
    assert_eq!(stale.error_bound, Some(ps(0.02 + 0.06) as u128));
    // A loop is not stale before its time.
    assert!(t.snapshot(64 * S).synchronized);
    assert!(!t.snapshot(64 * S + 1).synchronized);
}

#[test]
fn an_op_aimed_at_the_role_that_is_not_running_errors_rather_than_inventing() {
    let live = server();
    let loop_state = TrackingState::unsynchronized(0);
    let serving = ControlState::for_server(Role::Running(&live));
    let syncing = ControlState::for_sync(Role::Running(&loop_state));
    match ask(ControlRequest::Tracking, &serving) {
        ControlResponse::Error { message } => assert!(message.contains("rtimed sync")),
        _ => panic!("expected an error"),
    }
    match ask(ControlRequest::ServerStats, &syncing) {
        ControlResponse::Error { message } => assert!(message.contains("rtimed serve")),
        _ => panic!("expected an error"),
    }
    assert!(matches!(ask(ControlRequest::Ping, &syncing), ControlResponse::Pong { .. }));
}

#[test]
fn the_tracking_op_answers_from_a_sync_daemon() {
    let mut t = TrackingState::unsynchronized(0);
    t.publish(true, ps(-0.25), 3_500_000_000, Some(ps(0.01) as u128), 32 * S, 100 * S);
    match ask(ControlRequest::Tracking, &ControlState::for_sync(Role::Running(&t))) {
        ControlResponse::Tracking(r) => {
            assert!(r.synchronized);
            assert_eq!(r.offset, ps(-0.25));
            assert_eq!(r.poll_log2, 5);
        }
        _ => panic!("expected tracking"),
    }
}

#[test]
fn ping_reports_the_version() {
    let live = server();
    match ask(ControlRequest::Ping, &ControlState::for_server(Role::Running(&live))) {
        ControlResponse::Pong { version } => assert_eq!(version, VERSION),
        _ => panic!("expected pong"),
    }
}

#[test]
fn serverstats_reflects_real_traffic() {
    let mut live = server();
    for _ in 0..12 {
        let _ = live.clients.admit_request(&7, 0);
    }
    match ask(ControlRequest::ServerStats, &ControlState::for_server(Role::Running(&live))) {
        ControlResponse::ServerStats(r) => {
            assert_eq!(r.ntp_requests, 12);
            assert!(r.ntp_responses > 0 && r.ntp_responses < 12);
            assert!(r.dropped_rate_limit > 0, "rate limiting should show in the stats");
            assert_eq!(r.clients_tracked, 1);
            assert_eq!(r.stratum, 2);
            assert_eq!(r.uptime_s, 500);
        }
        _ => panic!("expected serverstats"),
    }
}

#[test]
fn clients_op_lists_most_recent_first() {
    let mut live = server();
    for i in 0..5u32 {
        let _ = live.clients.admit_request(&i, i as u64 * S);
    }
    match ask(
        ControlRequest::Clients { limit: 3 },
        &ControlState::for_server(Role::Running(&live)),
    ) {
        ControlResponse::Clients { rows } => {
            assert_eq!(rows.len(), 3);
            assert_eq!(rows[0].client, 4, "most recent first");
            assert!(rows.iter().all(|r| r.requests == 1));
            assert_eq!(rows[0].last_seen_ago, 96 * S);
        }
        _ => panic!("expected clients"),
    }
}

#[test]
fn client_ages_are_finite_even_when_clocks_disagree() {
    let mut live = server();
    let _ = live.clients.admit_request(&1, u64::MAX);
    match ask(
        ControlRequest::Clients { limit: 4 },
        &ControlState::for_server(Role::Running(&live)),
    ) {
        ControlResponse::Clients { rows } => assert_eq!(rows[0].last_seen_ago, 0),
        _ => panic!("expected clients"),
    }
}

#[test]
fn ntsdata_reports_key_ids_only() {
    let live = server();
    match ask(ControlRequest::NtsData, &ControlState::for_server(Role::Running(&live))) {
        ControlResponse::NtsData { master_key_ids } => assert_eq!(master_key_ids, vec![0xABCD]),
        _ => panic!("expected ntsdata"),
    }
}

#[test]
fn a_poisoned_role_says_so() {
    let serving: ControlState<u32, RandomState> = ControlState::for_server(Role::Poisoned);
    match ask(ControlRequest::NtsData, &serving) {
        ControlResponse::Error { message } => assert_eq!(message, "server state is poisoned"),
        _ => panic!("expected an error"),
    }
    let syncing: ControlState<u32, RandomState> = ControlState::for_sync(Role::Poisoned);
    match ask(ControlRequest::Tracking, &syncing) {
        ControlResponse::Error { message } => assert_eq!(message, "tracking state is poisoned"),
        _ => panic!("expected an error"),
    }
}

#[test]
fn poll_exponents_are_the_nearest() {
    assert_eq!(poll_log2_of(0), 0);
    for (interval, exponent) in [
        (1, -30),
        (S / 4, -2),
        (S, 0),
        (1_414_213_562, 0),
        (1_414_213_563, 1),
        (3 * S, 2),
        (64 * S, 6),
        (u64::MAX, 34),
    ] {
        assert_eq!(poll_log2_of(interval), exponent, "{interval}");
    }
}

#[test]
fn silence_never_shrinks_a_bound() {
    let mut t = TrackingState::unsynchronized(0);
    t.publish(true, 0, 0, Some(u128::MAX - 5), S, 0);
    assert_eq!(t.snapshot(0).error_bound, Some(u128::MAX - 5));
    assert_eq!(t.snapshot(1000).error_bound, Some(u128::MAX));
}
