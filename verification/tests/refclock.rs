use rusty_time::refclock::{
    decode_sample, fd_to_clockid, phc_sample, shm_sample, ByteOrder, LeapWarning, RefclockError,
    RefclockSample, ShmOutcome, ShmReading, SockSample, SAMPLE_SIZE, SOCK_MAGIC,
};

fn ns(s: f64) -> Option<i128> {
    if s.is_finite() {
        Some((s * 1e9).round() as i128)
    } else {
        None
    }
}

fn sample(local: f64, reference: f64) -> RefclockSample {
    RefclockSample {
        local_ns: ns(local),
        offset_ns: ns(reference - local),
        precision_log2: -20,
        leap: LeapWarning::NoWarning,
    }
}

fn with_offset(local: f64, offset: f64) -> RefclockSample {
    RefclockSample {
        local_ns: ns(local),
        offset_ns: ns(offset),
        precision_log2: -20,
        leap: LeapWarning::NoWarning,
    }
}

/// A decoded datagram as a sample.
fn as_sample(s: &SockSample) -> RefclockSample {
    RefclockSample {
        local_ns: Some(s.sec as i128 * 1_000_000_000 + s.usec as i128 * 1000),
        offset_ns: ns(f64::from_bits(s.offset_bits)),
        precision_log2: -20,
        leap: s.leap,
    }
}

fn order() -> ByteOrder {
    if 1u16.to_ne_bytes()[0] == 1 {
        ByteOrder::LittleEndian
    } else {
        ByteOrder::BigEndian
    }
}

#[test]
fn offset_is_reference_minus_local() {
    let s = sample(1_756_224_000.0, 1_756_224_000.5);
    assert_eq!(s.offset_ns(), Some(500_000_000));
    assert!(s.validate(None).is_ok());
}

#[test]
fn an_unsynchronized_reference_is_refused() {
    let mut s = sample(1_756_224_000.0, 1_756_224_000.0);
    s.leap = LeapWarning::NotSynchronized;
    assert_eq!(s.validate(None), Err(RefclockError::NotSynchronized));
}

#[test]
fn a_stale_segment_cannot_keep_confirming_a_frozen_time() {
    let s = sample(1_756_224_000.0, 1_756_224_000.0);
    assert!(s.validate(ns(1_756_223_999.0)).is_ok());
    assert_eq!(
        s.validate(ns(1_756_224_000.0)),
        Err(RefclockError::Stale),
        "the same timestamp twice is not two samples"
    );
    assert_eq!(s.validate(ns(1_756_224_001.0)), Err(RefclockError::Stale));
}

#[test]
fn a_zeroed_segment_reads_as_implausible_not_as_1970() {
    let s = sample(0.0, 0.0);
    assert_eq!(s.validate(None), Err(RefclockError::Implausible));
    let half = sample(1_756_224_000.0, 0.0);
    assert_eq!(half.validate(None), Err(RefclockError::Implausible));
}

#[test]
fn a_wildly_stale_reading_is_refused_however_well_formed() {
    let s = sample(1_756_224_000.0, 1_756_224_000.0 - 3600.0);
    assert_eq!(s.validate(None), Err(RefclockError::OffsetTooLarge));
    let ok = sample(1_756_224_000.0, 1_756_224_000.0 + 15.0);
    assert!(ok.validate(None).is_ok());
}

#[test]
fn an_offset_survives_a_round_trip_exactly() {
    for offset in [1e-9, -1e-9, 1.5e-3, -1.5e-3, 123e-6] {
        let s = with_offset(1_756_224_000.0, offset);
        assert_eq!(s.offset_ns(), ns(offset), "offset {offset} did not survive storage exactly");
    }
}

#[test]
fn nan_and_infinity_are_not_times() {
    for bad in [f64::NAN, f64::INFINITY, f64::NEG_INFINITY] {
        assert_eq!(
            sample(bad, 1_756_224_000.0).validate(None),
            Err(RefclockError::Implausible)
        );
        assert_eq!(
            with_offset(1_756_224_000.0, bad).validate(None),
            Err(RefclockError::Implausible)
        );
    }
}

#[test]
fn leap_decoding_matches_the_wire_values() {
    assert_eq!(LeapWarning::from_wire(0), LeapWarning::NoWarning);
    assert_eq!(LeapWarning::from_wire(1), LeapWarning::AddSecond);
    assert_eq!(LeapWarning::from_wire(2), LeapWarning::DeleteSecond);
    for unknown in [3, 4, -1, 99] {
        assert_eq!(LeapWarning::from_wire(unknown), LeapWarning::NotSynchronized);
    }
}

#[test]
fn dispersion_follows_the_precision_claim() {
    let mut s = sample(1_756_224_000.0, 1_756_224_000.0);
    s.precision_log2 = -20;
    assert!((s.dispersion_ps() as f64 * 1e-12 - 9.5367e-7).abs() < 1e-9);
    s.precision_log2 = 0;
    assert_eq!(s.dispersion_ps(), 1_000_000_000_000);
    s.precision_log2 = 4;
    assert_eq!(s.dispersion_ps(), 16_000_000_000_000);
    s.precision_log2 = -128;
    assert_eq!(s.dispersion_ps(), 0);
    s.precision_log2 = 127;
    assert_eq!(s.dispersion_ps(), u128::MAX);
}

#[test]
fn sock_decoding_matches_chronys_layout() {
    let mut buf = [0u8; SAMPLE_SIZE];
    let sec: i64 = 1_756_224_000;
    let usec: i64 = 250_000;
    let offset: f64 = -0.001_5;
    buf[0..8].copy_from_slice(&sec.to_ne_bytes());
    buf[8..16].copy_from_slice(&usec.to_ne_bytes());
    buf[16..24].copy_from_slice(&offset.to_ne_bytes());
    buf[24..28].copy_from_slice(&1i32.to_ne_bytes());
    buf[28..32].copy_from_slice(&0i32.to_ne_bytes());
    buf[36..40].copy_from_slice(&SOCK_MAGIC.to_ne_bytes());

    let s = decode_sample(&buf, order()).expect("should decode");
    assert_eq!(as_sample(&s).local_ns, Some(1_756_224_000_250_000_000));
    assert_eq!(
        f64::from_bits(s.offset_bits),
        offset,
        "the offset must survive decoding exactly, not approximately"
    );
    assert_eq!(s.leap, LeapWarning::NoWarning);
}

#[test]
fn a_datagram_without_the_magic_is_not_a_time_sample() {
    let mut buf = [0u8; SAMPLE_SIZE];
    buf[0..8].copy_from_slice(&1_756_224_000i64.to_ne_bytes());
    buf[36..40].copy_from_slice(&0xDEAD_BEEFu32.to_ne_bytes());
    assert!(decode_sample(&buf, order()).is_none());
    assert!(decode_sample(&buf[..20], order()).is_none());
    assert!(decode_sample(&[], order()).is_none());
}

#[test]
fn sock_leap_field_is_honoured() {
    let mut buf = [0u8; SAMPLE_SIZE];
    buf[0..8].copy_from_slice(&1_756_224_000i64.to_ne_bytes());
    buf[36..40].copy_from_slice(&SOCK_MAGIC.to_ne_bytes());
    buf[28..32].copy_from_slice(&3i32.to_ne_bytes());
    let s = decode_sample(&buf, order()).expect("decode");
    assert_eq!(s.leap, LeapWarning::NotSynchronized);
    assert!(as_sample(&s).validate(None).is_err());
}

#[test]
fn both_byte_orders_decode() {
    let mut buf = [0u8; SAMPLE_SIZE];
    buf[0..8].copy_from_slice(&7i64.to_be_bytes());
    buf[8..16].copy_from_slice(&8i64.to_be_bytes());
    buf[16..24].copy_from_slice(&2.5f64.to_be_bytes());
    buf[28..32].copy_from_slice(&2i32.to_be_bytes());
    buf[36..40].copy_from_slice(&SOCK_MAGIC.to_be_bytes());
    let s = decode_sample(&buf, ByteOrder::BigEndian).expect("decode");
    assert_eq!((s.sec, s.usec, f64::from_bits(s.offset_bits)), (7, 8, 2.5));
    assert_eq!(s.leap, LeapWarning::DeleteSecond);
    assert!(decode_sample(&buf, ByteOrder::LittleEndian).is_none());
}

fn reading() -> ShmReading {
    ShmReading {
        valid: 1,
        mode: 1,
        count_before: 5,
        clock_sec: 1_756_224_000,
        clock_usec: 250_000,
        clock_nsec: 250_000_111,
        receive_sec: 1_756_224_000,
        receive_usec: 249_999,
        receive_nsec: 249_999_999,
        leap: 0,
        precision: -20,
        count_after: 5,
    }
}

#[test]
fn a_shared_segment_is_read_to_the_nanosecond() {
    match shm_sample(&reading()) {
        ShmOutcome::Sample(s) => {
            assert_eq!(s.local_ns, Some(1_756_224_000_249_999_999));
            assert_eq!(s.offset_ns, Some(112));
            assert_eq!(s.reference_ns(), Some(1_756_224_000_250_000_111));
        }
        _ => panic!("expected a sample"),
    }
}

#[test]
fn a_segment_that_changed_under_the_reader_is_torn() {
    let mut r = reading();
    r.count_after = 6;
    assert!(matches!(shm_sample(&r), ShmOutcome::Torn));
    let mut r = reading();
    r.valid = 0;
    assert!(matches!(shm_sample(&r), ShmOutcome::Empty));
}

#[test]
fn every_refusal_says_why() {
    for e in [
        RefclockError::NotSynchronized,
        RefclockError::OffsetTooLarge,
        RefclockError::Implausible,
        RefclockError::Stale,
    ] {
        assert!(!e.message().is_empty());
    }
}

#[test]
fn a_descriptor_becomes_a_clock_id() {
    // ((~fd) << 3) | 3
    for fd in [0, 3, 7, 1023] {
        assert_eq!(fd_to_clockid(fd), (!fd << 3) | 3);
    }
}

#[test]
fn a_hardware_clock_is_read_against_the_midpoint() {
    let s = phc_sample(1_000_000_000, 1_000_000_500, 1_000_000_200);
    assert_eq!(s.local_ns, Some(1_000_000_100));
    assert_eq!(s.offset_ns, Some(400));
    // 200 ns are covered by 2^-22 s (238 ns), not by 2^-23 s.
    assert_eq!(s.precision_log2, -22);
    assert_eq!(phc_sample(5, 5, 5).precision_log2, -29);
    assert_eq!(phc_sample(0, 0, 10_000_000_000).precision_log2, 0);
    assert_eq!(phc_sample(-3, 0, 0).local_ns, Some(-2));
}

#[test]
fn any_descriptor_has_a_clock_id() {
    for fd in [-1, i32::MIN, i32::MAX, 0x0FFF_FFFF, 0x1000_0000, 0x2000_0000, -77] {
        assert_eq!(fd_to_clockid(fd), (!fd << 3) | 3, "{fd}");
    }
}

#[test]
fn a_coarse_precision_is_held_as_far_as_it_fits() {
    let mut s = sample(100.0, 100.0);
    s.precision_log2 = 65;
    assert_eq!(s.dispersion_ps(), 1_000_000_000_000 << 65);
    s.precision_log2 = 88;
    assert_eq!(s.dispersion_ps(), 1_000_000_000_000 << 88);
    s.precision_log2 = 89;
    assert_eq!(s.dispersion_ps(), u128::MAX);
}
