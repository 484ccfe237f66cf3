use rusty_time::exchange::{
    accept_reply, announces_leap, arrival, leap_str, measure, ntp_to_unix_near, refid_str,
    sample_of, usable,
};
use rusty_time::ntp::{
    LeapIndicator, Mode, NtpPacket, NtpShort, NtpTimestamp, TICKS_PER_SECOND, UNIX_EPOCH_OFFSET,
};
use rusty_time::query::QueryReport;

const S: i64 = 1_000_000_000;

fn ticks(s: f64) -> i128 {
    (s * 4_294_967_296.0).round() as i128
}

fn seconds(ticks: i128) -> f64 {
    ticks as f64 / TICKS_PER_SECOND as f64
}

/// A reply to a request that left at second 1756224000 on the local clock, from
/// a server that is `ahead` nanoseconds ahead, 10 ms away each way.
fn reply(ahead: i64) -> NtpPacket {
    let mut p = NtpPacket::client_request(4, NtpTimestamp(0));
    p.mode = Mode::Server;
    p.stratum = 2;
    p.origin_ts = NtpTimestamp(77);
    let at = 1_756_224_000 * S + ahead + 10_000_000;
    p.receive_ts = NtpTimestamp::from_unix(at / S, (at % S) as u32);
    p.transmit_ts = p.receive_ts;
    p.root_delay = NtpShort(0x8000);
    p.root_dispersion = NtpShort(0x4000);
    p
}

#[test]
fn era_pivot_resolves_current_times() {
    let ts = NtpTimestamp::from_unix(1_756_224_000, 250_000_000);
    let back = seconds(ntp_to_unix_near(ts, ticks(1_756_224_000.0)));
    assert!((back - 1_756_224_000.25).abs() < 1e-6, "{back}");
}

#[test]
fn era_pivot_resolves_post_2036_times() {
    let era1_start_unix = 4_294_967_296.0 - UNIX_EPOCH_OFFSET as f64;
    let pivot = era1_start_unix + 50.0;
    let ts = NtpTimestamp::from_parts(100, 0);
    let back = seconds(ntp_to_unix_near(ts, ticks(pivot)));
    assert!((back - (era1_start_unix + 100.0)).abs() < 1e-6, "{back}");
}

#[test]
fn only_the_answer_to_the_request_is_accepted() {
    let p = reply(0);
    let bytes = p.to_bytes();
    assert_eq!(accept_reply(&bytes, NtpTimestamp(77)), Some(p));
    assert_eq!(accept_reply(&bytes, NtpTimestamp(78)), None);
    assert_eq!(accept_reply(&bytes[..47], NtpTimestamp(77)), None);
    let mut client = p;
    client.mode = Mode::Client;
    assert_eq!(accept_reply(&client.to_bytes(), NtpTimestamp(77)), None);
}

#[test]
fn unusable_replies_are_told_apart() {
    assert!(usable(&reply(0)));
    for stratum in [0, 16, 255] {
        assert!(!usable(&NtpPacket { stratum, ..reply(0) }));
    }
    assert!(!usable(&NtpPacket { leap: LeapIndicator::Unsynchronized, ..reply(0) }));
    assert!(!usable(&NtpPacket { transmit_ts: NtpTimestamp(0), ..reply(0) }));
    assert!(!usable(&NtpPacket { receive_ts: NtpTimestamp(0), ..reply(0) }));
    assert!(announces_leap(&NtpPacket { leap: LeapIndicator::LastMinute59, ..reply(0) }));
    assert!(!announces_leap(&reply(0)));
}

#[test]
fn an_exchange_measures_offset_and_delay() {
    let t1 = 1_756_224_000 * S;
    let m = measure(&reply(250_000_000), t1, t1 + 20_000_000).expect("measurement");
    assert!((m.offset_ps - 250_000_000_000).abs() <= 250, "{}", m.offset_ps);
    assert_eq!(m.delay_ps, 20_000_000_000);
    assert_eq!(m.dispersion_ps, 250_000_000_000);
    assert_eq!(m.root_distance_ps, 250_000_000_000 + 250_000_000_000 + 10_000_000_000);
    let s = sample_of(&m, 100, 300);
    assert_eq!((s.t, s.offset, s.delay), (200, m.offset_ps, 20_000_000_000));
    // A reply that took longer on the server than on the whole way round.
    let mut late = reply(0);
    late.transmit_ts = NtpTimestamp::from_unix(1_756_224_001, 0);
    assert!(measure(&late, t1, t1 + 20_000_000).is_none());
}

#[test]
fn the_kernels_stamp_takes_the_latency_off() {
    assert_eq!(arrival(Some(900), 1000, 5000), (900, 4900));
    assert_eq!(arrival(None, 1000, 5000), (1000, 5000));
    assert_eq!(arrival(Some(1100), 1000, 5000), (1100, 5000));
    assert_eq!(arrival(Some(0), 10_000, 5000), (0, 0));
}

#[test]
fn names_are_shown_as_names() {
    assert_eq!(refid_str(1, *b"GPS\0"), "GPS");
    assert_eq!(refid_str(1, [b'a', 7, b'b', 0]), "a?b");
    assert_eq!(refid_str(1, [0, 1, 2, 3]), "00010203");
    assert_eq!(refid_str(2, [192, 168, 1, 1]), "c0a80101");
    assert_eq!(leap_str(LeapIndicator::NoWarning), "no-warning");
    assert_eq!(leap_str(LeapIndicator::LastMinute61), "last-minute-61");
    assert_eq!(leap_str(LeapIndicator::LastMinute59), "last-minute-59");
    assert_eq!(leap_str(LeapIndicator::Unsynchronized), "unsynchronized");
}

#[test]
fn a_query_concludes_from_what_it_was_answered() {
    let mut report = QueryReport::new();
    assert_eq!(report.exit_code(), 1);
    let t1 = 1_756_224_000 * S;
    for i in 0..4u64 {
        report.request_sent();
        assert!(report.take_reply(&reply(250_000_000), t1, t1 + 20_000_000, i * 100, i * 100 + 20));
    }
    report.request_sent();
    let kiss = NtpPacket { stratum: 0, ..reply(0) };
    assert!(!report.take_reply(&kiss, t1, t1 + 20_000_000, 400, 420));
    assert_eq!((report.sent, report.received, report.samples.len()), (5, 4, 4));
    assert_eq!(report.newest(), Some(310));
    report.conclude(1000);
    assert_eq!(report.exit_code(), 0);
    assert_eq!(report.leap, "no-warning");
    assert_eq!(report.reference_id, "00000000");
    assert_eq!(report.samples[0].stratum, 2);
    assert_eq!(report.best.expect("best").offset, report.samples[0].offset_ps);
    let r = report.regression.expect("regression");
    assert_eq!(r.offset, report.samples[0].offset_ps);
    assert_eq!(r.freq_ppq, None);
}
