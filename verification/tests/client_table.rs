use rusty_time::hasher::ClientHashBuilder;
use rusty_time::ntp::NtpTimestamp;
use rusty_time::policy::{Disposition, RateLimitConfig, ResponseMode};
use rusty_time::server::{ClientHandle, ClientTable};

const S: u64 = 1_000_000_000;

fn table() -> ClientTable<u32> {
    ClientTable::new(
        4,
        RateLimitConfig {
            interval_log2: 3,
            burst: 2,
            leak_shift: 2,
            global_rate_nhz: 0,
            global_burst_nano: 0,
        },
    )
}

#[test]
fn address_churn_cannot_defeat_the_limiter() {
    let mut t = ClientTable::<u32>::new(
        1_024,
        RateLimitConfig {
            interval_log2: 3,
            burst: 8,
            leak_shift: 4,
            global_rate_nhz: 100 * S,
            global_burst_nano: 100 * S,
        },
    );
    let mut answered = 0u64;
    for client in 0..20_000u32 {
        if t.admit_request(&client, client as u64 * 50_000) == Disposition::Respond {
            answered += 1;
        }
    }
    assert!(answered <= 250, "address churn produced {answered} answers against a 100/s ceiling");
    assert!(answered > 0, "the ceiling must not block everything");
}

#[test]
fn the_global_ceiling_refills_over_time() {
    let mut t = ClientTable::<u32>::new(
        16,
        RateLimitConfig {
            interval_log2: -10,
            burst: 1_000_000,
            leak_shift: 8,
            global_rate_nhz: 10 * S,
            global_burst_nano: 10 * S,
        },
    );
    let mut answered = 0;
    for i in 0..100u32 {
        if t.admit_request(&(i % 4), 0) == Disposition::Respond {
            answered += 1;
        }
    }
    assert!(answered <= 11, "burst exceeded: {answered}");
    assert_eq!(t.admit_request(&0, 10 * S), Disposition::Respond);
}

#[test]
fn burst_is_allowed_then_the_limiter_bites() {
    let mut t = table();
    assert_eq!(t.admit_request(&1, 0), Disposition::Respond);
    assert_eq!(t.admit_request(&1, 0), Disposition::Respond);
    assert!(matches!(t.admit_request(&1, 0), Disposition::Drop | Disposition::KissOfDeath));
    assert_eq!(t.stats.responses, 2);
}

#[test]
fn tokens_refill_over_time() {
    let mut t = table();
    let _ = t.admit_request(&1, 0);
    let _ = t.admit_request(&1, 0);
    assert_ne!(t.admit_request(&1, 0), Disposition::Respond);
    assert_eq!(t.admit_request(&1, 8 * S), Disposition::Respond);
    assert_ne!(t.admit_request(&1, 8 * S), Disposition::Respond);
}

#[test]
fn kiss_of_death_leaks_at_the_configured_rate_not_every_drop() {
    let mut t = table();
    let _ = t.admit_request(&1, 0);
    let _ = t.admit_request(&1, 0);
    let mut kods = 0;
    for _ in 0..12 {
        if t.admit_request(&1, 0) == Disposition::KissOfDeath {
            kods += 1;
        }
    }
    assert_eq!(kods, 3, "KoD leak rate wrong");
    assert!((kods as u64) < t.stats.dropped_rate_limit, "KoD count must stay below the drop count");
}

#[test]
fn one_client_cannot_starve_another() {
    let mut t = table();
    for _ in 0..50 {
        let _ = t.admit_request(&1, 0);
    }
    assert_eq!(t.admit_request(&2, 0), Disposition::Respond);
    assert_eq!(t.admit_request(&2, 0), Disposition::Respond);
}

#[test]
fn table_is_bounded_and_evicts_the_stalest() {
    let mut t = table();
    for client in 0..4u32 {
        let _ = t.admit_request(&client, client as u64 * S);
    }
    assert_eq!(t.len(), 4);
    let _ = t.admit_request(&99, 10 * S);
    assert_eq!(t.len(), 4, "table exceeded its bound");
    assert!(t.get(&0).is_none(), "stalest client was not evicted");
    assert!(t.get(&99).is_some());
    assert_eq!(t.stats.evicted, 1);
}

#[test]
fn interleaved_requires_the_client_to_echo_our_receive_timestamp() {
    let mut t = table();
    let _ = t.admit_request(&1, 0);
    let rx1 = NtpTimestamp::from_unix(1_756_224_000, 0);
    assert_eq!(t.response_mode(&1, NtpTimestamp(0x1111)), ResponseMode::Basic);
    t.note_response(&1, rx1, rx1);
    let tx1 = NtpTimestamp::from_unix(1_756_224_000, 500);
    t.note_transmit(&1, tx1);
    let _ = t.admit_request(&1, 8 * S);
    match t.response_mode(&1, rx1) {
        ResponseMode::Interleaved { prev_transmit } => {
            assert_eq!(prev_transmit, tx1);
        }
        other => panic!("expected interleaved, got {other:?}"),
    }
    assert_eq!(t.stats.interleaved_responses, 1);
}

#[test]
fn interleaved_flag_tracks_use_not_capability() {
    let mut t = table();
    let rx1 = NtpTimestamp::from_unix(1_756_224_000, 0);
    let _ = t.admit_request(&1, 0);
    t.note_response(&1, rx1, rx1);
    t.note_transmit(&1, rx1);

    let _ = t.admit_request(&1, 8 * S);
    let _ = t.response_mode(&1, NtpTimestamp(0));
    assert!(
        !t.get(&1).expect("record").interleaved_now,
        "a client that never asked must not be reported as using interleaved"
    );

    let _ = t.admit_request(&1, 16 * S);
    let _ = t.response_mode(&1, rx1);
    assert!(t.get(&1).expect("record").interleaved_now);

    let _ = t.admit_request(&1, 24 * S);
    let _ = t.response_mode(&1, NtpTimestamp(0));
    assert!(!t.get(&1).expect("record").interleaved_now);
}

#[test]
fn a_client_echoing_the_wrong_value_gets_basic_mode() {
    let mut t = table();
    let _ = t.admit_request(&1, 0);
    let rx1 = NtpTimestamp::from_unix(1_756_224_000, 0);
    t.note_response(&1, rx1, rx1);
    t.note_transmit(&1, NtpTimestamp::from_unix(1_756_224_000, 500));
    let _ = t.admit_request(&1, 8 * S);
    assert_eq!(t.response_mode(&1, NtpTimestamp(0xDEAD_BEEF)), ResponseMode::Basic);
    assert_eq!(t.response_mode(&1, NtpTimestamp(0)), ResponseMode::Basic);
}

#[test]
fn eviction_downgrades_to_basic_rather_than_lying() {
    let mut t = table();
    let rx = NtpTimestamp::from_unix(1_756_224_000, 0);
    let _ = t.admit_request(&1, 0);
    t.note_response(&1, rx, rx);
    t.note_transmit(&1, rx);
    for c in 10..15u32 {
        let _ = t.admit_request(&c, (100 + c as u64) * S);
    }
    assert!(t.get(&1).is_none());
    let _ = t.admit_request(&1, 200 * S);
    assert_eq!(t.response_mode(&1, rx), ResponseMode::Basic);
}

#[test]
fn heavy_client_churn_stays_tractable() {
    let capacity = 4_096;
    let mut t = ClientTable::<u32>::new(capacity, RateLimitConfig::default());
    let churn = 200_000u32;
    for client in 0..churn {
        let _ = t.admit_request(&client, client as u64 * 1_000_000);
    }
    assert_eq!(t.len(), capacity, "table must sit exactly at capacity");
    assert_eq!(
        t.stats.evicted,
        (churn as u64) - capacity as u64,
        "every client past capacity must have cost exactly one eviction"
    );
    assert!(t.get(&(churn - 1)).is_some(), "newest client was evicted");
    assert!(t.get(&0).is_none(), "oldest client survived");
}

#[test]
fn eviction_is_true_lru_not_insertion_order() {
    let mut t = ClientTable::<u32>::new(3, RateLimitConfig::default());
    let _ = t.admit_request(&1, 0);
    let _ = t.admit_request(&2, S);
    let _ = t.admit_request(&3, 2 * S);
    let _ = t.admit_request(&1, 3 * S);
    let _ = t.admit_request(&4, 4 * S);
    assert!(t.get(&1).is_some(), "recently used client was evicted");
    assert!(t.get(&2).is_none(), "stalest client should have gone");
    assert!(t.get(&3).is_some());
    assert!(t.get(&4).is_some());
}

#[test]
fn mru_report_is_ordered_and_bounded() {
    let mut t = ClientTable::<u32>::new(16, RateLimitConfig::default());
    for c in 0..10u32 {
        let _ = t.admit_request(&c, c as u64 * S);
    }
    let mru = t.most_recent(3);
    assert_eq!(mru.len(), 3);
    assert_eq!(mru[0].0, 9, "most recent first");
    assert_eq!(mru[2].0, 7);
}

#[test]
fn a_handle_that_outlived_its_client_is_stale() {
    let mut t = ClientTable::<u32>::new(1, RateLimitConfig::default());
    let (first, handle) = t.admit_handle(&1, 0);
    assert_eq!(first, Disposition::Respond);
    let rx = NtpTimestamp(0x10);
    t.note_response_at(handle, rx, rx);
    t.note_transmit_at(handle, NtpTimestamp(0x20));
    assert!(matches!(t.response_mode_at(handle, rx), ResponseMode::Interleaved { .. }));
    // Another client takes the slot over.
    let _ = t.admit_handle(&2, S);
    assert_eq!(t.response_mode_at(handle, rx), ResponseMode::Basic);
    t.note_transmit_at(handle, NtpTimestamp(0x30));
    assert_eq!(t.get(&2).expect("record").last_transmit, None);
    assert_eq!(t.response_mode_at(ClientHandle::invalid(), rx), ResponseMode::Basic);
}

#[test]
fn refusals_are_counted_and_an_empty_table_says_so() {
    let mut t = ClientTable::<u32>::new(0, RateLimitConfig::default());
    assert!(t.is_empty());
    t.note_refused();
    t.note_refused();
    assert_eq!(t.counters().refused, 2);
    let _ = t.admit_request(&1, 0);
    assert!(!t.is_empty());
    // A capacity of nothing still holds one client.
    let _ = t.admit_request(&2, 0);
    assert_eq!(t.len(), 1);
}

#[test]
fn hashes_follow_the_seed_and_the_bytes() {
    let a = ClientHashBuilder::seeded(Some("17"), 99);
    assert_eq!(a.seed, 17);
    assert_eq!(ClientHashBuilder::seeded(Some("x"), 99).seed, 99);
    assert_eq!(ClientHashBuilder::seeded(None, 99).seed, 99);
    let hash = |bytes: &[u8]| {
        let mut h = a.start();
        h.mix_bytes(bytes);
        h.digest()
    };
    assert_eq!(hash(b"192.0.2.1"), hash(b"192.0.2.1"));
    assert_ne!(hash(b"192.0.2.1"), hash(b"192.0.2.2"));
    // Trailing zero bytes are part of the key.
    assert_ne!(hash(&[1]), hash(&[1, 0]));
    assert_ne!(hash(&[]), hash(&[0]));
    assert_ne!(hash(&[1, 2, 3, 4, 5, 6, 7, 8]), hash(&[1, 2, 3, 4, 5, 6, 7, 8, 0]));
}

#[test]
fn one_word_hashes_as_computed_by_hand() {
    let mut h = ClientHashBuilder { seed: 0 }.start();
    h.mix(1);
    assert_eq!(h.state, 0x9e37_79b1_85eb_ca87);
    let mut z = h.state;
    z = (z ^ (z >> 30)).wrapping_mul(0xbf58_476d_1ce4_e5b9);
    z = (z ^ (z >> 27)).wrapping_mul(0x94d0_49bb_1331_11eb);
    assert_eq!(h.digest(), z ^ (z >> 31));
    // Eight bytes are one little-endian word.
    let mut g = ClientHashBuilder { seed: 0 }.start();
    g.mix_bytes(&[1, 0, 0, 0, 0, 0, 0, 0]);
    assert_eq!(g.state, h.state);
    // Fewer carry their count in the top byte.
    let mut f = ClientHashBuilder { seed: 0 }.start();
    f.mix_bytes(&[1]);
    assert_eq!(f.state, (1u64 + (1 << 56)).wrapping_mul(0x9e37_79b1_85eb_ca87));
}

#[test]
fn a_stale_handle_stays_stale_when_its_client_returns() {
    let mut t = ClientTable::<u32>::new(1, RateLimitConfig::default());
    let (_, first) = t.admit_handle(&1, 0);
    let _ = t.admit_handle(&2, S);
    let (_, again) = t.admit_handle(&1, 2 * S);
    assert!(again != first);
    let rx = NtpTimestamp(0x11);
    t.note_response_at(first, rx, rx);
    assert_eq!(t.response_mode_at(again, rx), ResponseMode::Basic);
    t.note_response_at(again, rx, rx);
    t.note_transmit_at(again, NtpTimestamp(0x22));
    assert!(matches!(t.response_mode_at(again, rx), ResponseMode::Interleaved { .. }));
}

#[test]
fn every_request_is_answered_or_dropped() {
    let mut t = table();
    for i in 0..40u64 {
        let _ = t.admit_request(&((i % 3) as u32), i * S / 4);
    }
    let c = t.counters();
    assert_eq!(c.requests, 40);
    assert_eq!(c.requests, c.responses + c.dropped_rate_limit);
    assert!(c.dropped_rate_limit > 0 && c.responses > 0);
}

#[test]
fn a_client_is_answered_as_if_it_were_alone() {
    let mut crowded = table();
    let mut alone = table();
    for i in 0..30u64 {
        let _ = crowded.admit_request(&7, i * S);
        let here = crowded.admit_request(&1, i * S);
        let there = alone.admit_request(&1, i * S);
        assert_eq!(here, there, "request {i}");
    }
}

#[test]
fn a_clients_footprint_counts_slot_key_and_index() {
    let small = ClientTable::<u32>::bytes_per_client();
    let large = ClientTable::<[u64; 4]>::bytes_per_client();
    assert!(small > 4 + 4 + 1, "{small}");
    // The key is held twice: in the slot and in the index.
    assert!(large >= small + 2 * (32 - 4) - 8, "{large} against {small}");
}
