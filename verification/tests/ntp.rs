use rusty_time::ntp::{
    extension_fields, offset_delay, LeapIndicator, Mode, NtpInterval, NtpPacket, NtpShort,
    NtpTimestamp, ParseError, Trailer, HEADER_LEN, TICKS_PER_SECOND,
};

/// Seconds that an interval stands for.
fn seconds(span: NtpInterval) -> f64 {
    span.0 as f64 / 4_294_967_296.0
}

/// Ticks of a time in seconds.
fn ticks(s: f64) -> NtpInterval {
    NtpInterval((s * 4_294_967_296.0).round() as i64)
}

fn short(s: f64) -> NtpShort {
    NtpShort((s * 65_536.0) as u32)
}

const TICK: f64 = 1.0 / 4_294_967_296.0;

#[test]
fn differences_keep_sub_nanosecond_resolution() {
    let secs = 1_787_856_000i64;
    let a = NtpTimestamp::from_unix(secs, 0);
    let b = NtpTimestamp::from_unix(secs, 1);
    let exact = seconds(b.seconds_since(a));
    assert!(exact > 0.0, "a 1 ns step vanished entirely in the fixed-point difference");
    assert!((exact - 1e-9).abs() <= TICK, "fixed-point difference gave {exact} s for a 1 ns step");
    let ulp = (secs as f64).next_up() - secs as f64;
    assert!(ulp > 200e-9, "ULP is {ulp} s");
}

#[test]
fn the_2038_exponent_step_does_not_reach_the_difference() {
    let secs = 2_147_500_000i64;
    let a = NtpTimestamp::from_unix(secs, 0);
    let b = NtpTimestamp::from_unix(secs, 100);
    let exact = seconds(b.seconds_since(a));
    assert!((exact - 100e-9).abs() <= TICK, "a 100 ns step past 2038 measured as {exact} s");
    let ulp = (secs as f64).next_up() - secs as f64;
    assert!(ulp > 400e-9, "got {ulp} s");
}

#[test]
fn a_difference_spans_the_era_boundary() {
    let before = NtpTimestamp::from_unix(2_085_978_495, 0);
    let after = NtpTimestamp::from_unix(2_085_978_497, 0);
    let delta = seconds(after.seconds_since(before));
    assert!((delta - 2.0).abs() <= TICK, "two seconds across the era wrap measured as {delta}");
}

#[test]
fn roundtrip_header() {
    let p = NtpPacket {
        leap: LeapIndicator::NoWarning,
        version: 4,
        mode: Mode::Server,
        stratum: 2,
        poll: 6,
        precision: -20,
        root_delay: short(0.015),
        root_dispersion: short(0.002),
        reference_id: *b"GPS\0",
        reference_ts: NtpTimestamp::from_unix(1_756_200_000, 0),
        origin_ts: NtpTimestamp(0x0102_0304_0506_0708),
        receive_ts: NtpTimestamp::from_unix(1_756_200_100, 500_000_000),
        transmit_ts: NtpTimestamp::from_unix(1_756_200_100, 500_100_000),
    };
    let bytes = p.to_bytes();
    let q = NtpPacket::parse(&bytes).expect("parse back");
    assert_eq!(p, q);
}

#[test]
fn field_offsets_match_rfc5905() {
    let mut p = NtpPacket::client_request(4, NtpTimestamp(0xAABB_CCDD_EEFF_0011));
    p.origin_ts = NtpTimestamp(0x1111_1111_1111_1111);
    p.receive_ts = NtpTimestamp(0x2222_2222_2222_2222);
    p.reference_ts = NtpTimestamp(0x3333_3333_3333_3333);
    let b = p.to_bytes();
    assert_eq!(b[0], 0b00_100_011);
    assert_eq!(&b[16..24], &[0x33; 8]);
    assert_eq!(&b[24..32], &[0x11; 8]);
    assert_eq!(&b[32..40], &[0x22; 8]);
    assert_eq!(&b[40..48], &0xAABB_CCDD_EEFF_0011u64.to_be_bytes());
}

#[test]
fn short_and_bad_version_are_errors() {
    assert_eq!(NtpPacket::parse(&[0u8; 20]), Err(ParseError::TooShort { len: 20 }));
    let mut b = [0u8; 48];
    b[0] = 2 << 3;
    assert_eq!(NtpPacket::parse(&b), Err(ParseError::BadVersion { version: 2 }));
}

#[test]
fn timestamp_wraparound_diff() {
    let before = NtpTimestamp(u64::MAX - (1u64 << 31));
    let after = NtpTimestamp(1u64 << 31);
    let d = seconds(after.seconds_since(before));
    assert!((d - 1.0).abs() < 1e-9, "got {d}");
}

#[test]
fn exchange_math() {
    let t1 = ticks(10.000);
    let t2 = ticks(10.125);
    let t3 = ticks(10.126);
    let t4 = ticks(10.051);
    let (doubled, delay) = offset_delay(t1, t2, t3, t4);
    let offset = doubled as f64 / 2.0 / TICKS_PER_SECOND as f64;
    let delay = delay as f64 / TICKS_PER_SECOND as f64;
    assert!((offset - 0.100).abs() < 1e-9, "offset {offset}");
    assert!((delay - 0.050).abs() < 1e-9, "delay {delay}");
}

#[test]
fn extension_iteration_handles_garbage() {
    let mut buf = vec![0u8; 48];
    buf[0] = (4 << 3) | 3;
    buf.extend_from_slice(&0x0104u16.to_be_bytes());
    buf.extend_from_slice(&16u16.to_be_bytes());
    buf.extend_from_slice(&[0xAB; 12]);
    buf.extend_from_slice(&[1, 2, 3]);
    let items = extension_fields(&buf).collect();
    assert_eq!(items.len(), 2);
    match items[0] {
        Trailer::Extension(ef) => {
            assert_eq!(ef.field_type, 0x0104);
            assert_eq!(ef.value, &[0xAB; 12][..]);
        }
        _ => panic!("expected extension"),
    }
    assert!(matches!(items[1], Trailer::Opaque(&[1, 2, 3])));
}

#[test]
fn stepping_through_a_trailer_gives_what_collecting_does() {
    let mut buf = vec![0u8; HEADER_LEN];
    for kind in [0x0104u16, 0x0204, 0x0304] {
        buf.extend_from_slice(&kind.to_be_bytes());
        buf.extend_from_slice(&20u16.to_be_bytes());
        buf.extend_from_slice(&[kind as u8; 16]);
    }
    let mut iter = extension_fields(&buf);
    let mut kinds = Vec::new();
    while let Some(Trailer::Extension(field)) = iter.next() {
        kinds.push(field.field_type);
    }
    assert_eq!(kinds, vec![0x0104, 0x0204, 0x0304]);
    assert!(iter.next().is_none());
    assert_eq!(extension_fields(&buf).collect().len(), 3);
    assert!(extension_fields(&[0u8; 10]).next().is_none());
}

#[test]
fn every_code_of_a_header_byte_reads_back() {
    for b in 0u8..=255 {
        let mut bytes = [0u8; 48];
        bytes[0] = b;
        match NtpPacket::parse(&bytes) {
            Ok(p) => assert_eq!(p.to_bytes(), bytes),
            Err(e) => assert_eq!(e, ParseError::BadVersion { version: b >> 3 & 7 }),
        }
    }
}

#[test]
fn a_written_header_is_what_to_bytes_gives() {
    let p = NtpPacket::client_request(3, NtpTimestamp(77));
    let mut buf = [0xFFu8; HEADER_LEN];
    p.write(&mut buf);
    assert_eq!(buf, p.to_bytes());
    assert_eq!(p.version, 3);
    assert_eq!(p.transmit_ts, NtpTimestamp(77));
}

#[test]
fn unix_times_become_era_relative_ticks() {
    let epoch = NtpTimestamp::from_unix(0, 0);
    assert_eq!(epoch.seconds(), 2_208_988_800);
    assert_eq!(epoch.fraction(), 0);
    let half = NtpTimestamp::from_unix(0, 500_000_000);
    assert_eq!(half.fraction(), 0x8000_0000);
    assert_eq!(NtpTimestamp::from_parts(1, 2).0, (1 << 32) + 2);
    assert!(NtpTimestamp(0).is_zero());
    assert!(!half.is_zero());
}

#[test]
fn the_offset_is_never_off_by_more_than_half_the_delay() {
    // The true offset is one second; all of the delay is on the way back.
    let (doubled, delay) =
        offset_delay(NtpInterval(0), ticks(1.0), ticks(1.0), ticks(0.25));
    let error = (doubled - 2 * TICKS_PER_SECOND as i128).abs();
    assert_eq!(error, delay);
}
