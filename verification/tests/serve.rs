use rusty_time::ntp::{Mode, NtpPacket, NtpTimestamp};
use rusty_time::policy::{RateLimitConfig, ResponseMode};
use rusty_time::reply::{
    build_reply_in, kiss_of_death, plain_reply, stamped, unix_parts_to_ntp, Reply, ReplyPlan,
    ServerState,
};
use rusty_time::server::ClientTable;
use std::collections::hash_map::RandomState;

type State = ServerState<u32, RandomState>;

fn state_with(rate_limit: RateLimitConfig) -> State {
    ServerState { clients: ClientTable::new(64, rate_limit), stratum: 2, started_unix: 0 }
}

fn test_state() -> State {
    state_with(RateLimitConfig {
        interval_log2: -20,
        burst: 1_000_000,
        leak_shift: 0,
        global_rate_nhz: 0,
        global_burst_nano: 0,
    })
}

/// Answer a request without authentication, with the clock read at `clock`.
fn answer(request: &[u8], client: u32, recv: NtpTimestamp, state: &mut State) -> Option<Reply> {
    let clock = NtpTimestamp::from_unix(1_756_224_000, 900);
    match build_reply_in(request, &client, recv, Some(0), state) {
        ReplyPlan::Ignore | ReplyPlan::Authenticate(_) => None,
        ReplyPlan::Send(reply) => Some(reply),
        ReplyPlan::Stamp { header, mode, handle } => {
            stamped(header, mode, Some(clock)).map(|h| plain_reply(&h, handle))
        }
    }
}

fn parsed(reply: &Reply) -> NtpPacket {
    NtpPacket::parse(reply.bytes.as_slice()).expect("parse")
}

#[test]
fn answers_plain_client_requests() {
    let mut state = test_state();
    let req = NtpPacket::client_request(4, NtpTimestamp(0x1234_5678_9ABC_DEF0)).to_bytes();
    let recv = NtpTimestamp::from_unix(1_756_224_000, 0);
    let p = parsed(&answer(&req, 1, recv, &mut state).expect("reply"));
    assert_eq!(p.mode, Mode::Server);
    assert_eq!(p.stratum, 2);
    assert_eq!(p.origin_ts, NtpTimestamp(0x1234_5678_9ABC_DEF0));
}

#[test]
fn refuses_to_reflect_server_mode_packets() {
    let mut state = test_state();
    let mut p = NtpPacket::client_request(4, NtpTimestamp(1));
    p.mode = Mode::Server;
    let recv = NtpTimestamp::from_unix(1_756_224_000, 0);
    assert!(answer(&p.to_bytes(), 1, recv, &mut state).is_none());
    assert_eq!(state.clients.stats.refused, 1);
}

#[test]
fn a_flood_is_rate_limited_and_kissed_off_sparingly() {
    let mut state = state_with(RateLimitConfig {
        interval_log2: 3,
        burst: 2,
        leak_shift: 2,
        global_rate_nhz: 0,
        global_burst_nano: 0,
    });
    let recv = NtpTimestamp::from_unix(1_756_224_000, 0);
    let mut answers = 0;
    let mut kods = 0;
    for i in 0..40u64 {
        let req = NtpPacket::client_request(4, NtpTimestamp(i)).to_bytes();
        if let Some(reply) = answer(&req, 9, recv, &mut state) {
            let p = parsed(&reply);
            if p.stratum == 0 && &p.reference_id == b"RATE" {
                kods += 1;
            } else {
                answers += 1;
            }
        }
    }
    assert!(answers <= 3, "rate limiter let {answers} full answers through");
    assert!(kods > 0, "no Kiss-o'-Death emitted at all");
    assert!(
        answers + kods < 20,
        "server replied to {}/40 of a flood, which is an amplifier",
        answers + kods
    );
}

#[test]
fn changing_source_port_does_not_reset_the_rate_limit() {
    let mut state = state_with(RateLimitConfig {
        interval_log2: 3,
        burst: 4,
        leak_shift: 8,
        global_rate_nhz: 0,
        global_burst_nano: 0,
    });
    let recv = NtpTimestamp::from_unix(1_756_224_000, 0);
    let mut answers = 0;
    for port in 40_000u16..40_040 {
        let req = NtpPacket::client_request(4, NtpTimestamp(port as u64)).to_bytes();
        // The key is the address alone.
        if let Some(reply) = answer(&req, 9, recv, &mut state) {
            if parsed(&reply).stratum != 0 {
                answers += 1;
            }
        }
    }
    assert!(answers <= 5, "40 requests on ONE address got {answers} answers with a burst of 4");
    assert_eq!(state.clients.len(), 1, "one address must be one client, whatever port it uses");
}

#[test]
fn one_clients_flood_does_not_deny_service_to_another() {
    let mut state = state_with(RateLimitConfig {
        interval_log2: 3,
        burst: 2,
        leak_shift: 2,
        global_rate_nhz: 0,
        global_burst_nano: 0,
    });
    let recv = NtpTimestamp::from_unix(1_756_224_000, 0);
    for i in 0..100u64 {
        let req = NtpPacket::client_request(4, NtpTimestamp(i)).to_bytes();
        let _ = answer(&req, 9, recv, &mut state);
    }
    let req = NtpPacket::client_request(4, NtpTimestamp(999)).to_bytes();
    let p = parsed(&answer(&req, 10, recv, &mut state).expect("reply"));
    assert_ne!(p.stratum, 0, "innocent client received a Kiss-o-Death");
    assert_eq!(p.stratum, 2);
}

#[test]
fn interleaved_mode_reports_the_previous_exchanges_timestamps() {
    let mut state = test_state();
    let client = 3;
    let recv1 = NtpTimestamp::from_unix(1_756_224_000, 0);
    let req1 = NtpPacket::client_request(4, NtpTimestamp(0xAAAA)).to_bytes();
    let p1 = parsed(&answer(&req1, client, recv1, &mut state).expect("reply 1"));
    assert_eq!(p1.receive_ts.0 & !1, recv1.0 & !1);

    let true_tx = NtpTimestamp::from_unix(1_756_224_000, 123_456);
    state.clients.note_transmit(&client, true_tx);

    let recv2 = NtpTimestamp::from_unix(1_756_224_064, 0);
    let client_t4 = NtpTimestamp(0xC0FF_EE00_1234_5678);
    let mut req2 = NtpPacket::client_request(4, NtpTimestamp(0xBBBB));
    req2.origin_ts = p1.receive_ts;
    req2.receive_ts = client_t4;
    let p2 = parsed(&answer(&req2.to_bytes(), client, recv2, &mut state).expect("reply 2"));
    assert_eq!(
        p2.receive_ts.0 & !1,
        recv2.0 & !1,
        "interleaved reply must report the CURRENT receive timestamp"
    );
    assert_eq!(
        p2.transmit_ts.0 & !1,
        true_tx.0 & !1,
        "should report the true transmit of the previous response"
    );
    assert_eq!(
        p2.origin_ts, client_t4,
        "interleaved reply must echo the request's receive field as origin"
    );
    assert_eq!(state.clients.stats.interleaved_responses, 1);
}

#[test]
fn a_client_not_asking_for_interleaved_gets_this_exchanges_timestamps() {
    let mut state = test_state();
    let client = 4;
    let recv1 = NtpTimestamp::from_unix(1_756_224_000, 0);
    let req1 = NtpPacket::client_request(4, NtpTimestamp(0xAAAA)).to_bytes();
    let _ = answer(&req1, client, recv1, &mut state).expect("reply 1");
    state.clients.note_transmit(&client, NtpTimestamp::from_unix(1_756_224_000, 1));

    let recv2 = NtpTimestamp::from_unix(1_756_224_064, 0);
    let req2 = NtpPacket::client_request(4, NtpTimestamp(0xBBBB)).to_bytes();
    let p2 = parsed(&answer(&req2, client, recv2, &mut state).expect("reply 2"));
    assert_eq!(p2.receive_ts.0 & !1, recv2.0 & !1, "basic mode must use this exchange");
    assert_eq!(p2.origin_ts, NtpTimestamp(0xBBBB));
    assert_eq!(p2.receive_ts.0 & 1, 1, "receive must have bit 0 set");
    assert_eq!(p2.transmit_ts.0 & 1, 0, "transmit must have bit 0 clear");
    assert_eq!(state.clients.stats.interleaved_responses, 0);
}

#[test]
fn malformed_datagrams_never_panic() {
    let mut state = test_state();
    let recv = NtpTimestamp::from_unix(1_756_224_000, 0);
    let mut rng = 0xACE1_2345_6789_BEEFu64;
    for _ in 0..20_000 {
        rng ^= rng << 13;
        rng ^= rng >> 7;
        rng ^= rng << 17;
        let len = (rng % 200) as usize;
        let mut p = vec![0u8; len];
        for b in p.iter_mut() {
            rng ^= rng << 13;
            rng ^= rng >> 7;
            rng ^= rng << 17;
            *b = rng as u8;
        }
        if len > 0 {
            p[0] = (4 << 3) | 3;
        }
        let _ = answer(&p, 11, recv, &mut state);
    }
}

#[test]
fn without_a_clock_nothing_is_answered() {
    let mut state = test_state();
    let req = NtpPacket::client_request(4, NtpTimestamp(5)).to_bytes();
    let plan = build_reply_in(&req, &1, NtpTimestamp(7), None, &mut state);
    assert!(matches!(plan, ReplyPlan::Ignore));
    assert!(state.clients.is_empty());
    let header = NtpPacket::client_request(4, NtpTimestamp(5));
    assert!(stamped(header, ResponseMode::Basic, None).is_none());
    let old = ResponseMode::Interleaved { prev_transmit: NtpTimestamp(9) };
    assert_eq!(stamped(header, old, None), Some(header));
}

#[test]
fn a_kiss_echoes_the_request() {
    let request = NtpPacket::client_request(4, NtpTimestamp(0xABCD));
    let recv = NtpTimestamp::from_unix(1_756_224_000, 0);
    let p = NtpPacket::parse(&kiss_of_death(&request, recv)).expect("parse");
    assert_eq!((p.stratum, p.reference_id), (0, *b"RATE"));
    assert_eq!(p.origin_ts, NtpTimestamp(0xABCD));
    assert_eq!(p.mode, Mode::Server);
}

#[test]
fn clock_parts_become_a_timestamp() {
    assert_eq!(
        unix_parts_to_ntp(1_756_224_000, 250_000_000),
        NtpTimestamp::from_unix(1_756_224_000, 250_000_000)
    );
}
