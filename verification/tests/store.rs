use rusty_time::entry_log::{append_entry, read_log, Collection};
use rusty_time::sealing::{derive_key, open_value, seal, SealFault};
use rusty_time::store::{compound_key, DriftRecord, NtsKeys, Store, StoreError, StoredMasterKey};

const SALT: [u8; 16] = [0x5C; 16];

fn open(pass: &[u8], log: Option<&[u8]>) -> Result<Store, StoreError> {
    Store::open(pass, &SALT, log)
}

/// A fresh nonce for each use.
fn nonce(n: u8) -> [u8; 12] {
    [n; 12]
}

fn nonces(n: usize) -> Vec<[u8; 12]> {
    (0..n).map(|i| [i as u8 + 1; 12]).collect()
}

fn drift(freq_ppm: f64, offset_s: f64, updated_unix: u64) -> DriftRecord {
    DriftRecord {
        freq_ppm: freq_ppm.to_string(),
        offset_s: offset_s.to_string(),
        updated_unix: updated_unix.to_string(),
    }
}

fn number(text: &str) -> f64 {
    text.parse().expect("a number")
}

#[test]
fn drift_survives_a_restart() {
    let log = {
        let mut s = open(b"correct horse battery staple", None).expect("open");
        s.put_drift("pool.ntp.org", &drift(-12.5, 0.000_25, 1_756_224_000), &nonce(1))
            .expect("put");
        s.flush().expect("flush")
    };
    let mut s = open(b"correct horse battery staple", Some(&log)).expect("reopen");
    let back = s.get_drift("pool.ntp.org").expect("get").expect("present");
    assert!((number(&back.freq_ppm) + 12.5).abs() < 1e-9);
    assert!((number(&back.offset_s) - 0.000_25).abs() < 1e-12);
    assert_eq!(back.updated_unix, "1756224000");
    assert!(s.get_drift("other.server").expect("get").is_none());
}

#[test]
fn cookies_round_trip_and_shrink_cleanly() {
    let mut s = open(b"pass", None).expect("open");
    let batch: Vec<Vec<u8>> = (0..5u8).map(|i| vec![i; 40]).collect();
    s.put_cookies("time.example", &batch, &nonces(5)).expect("put");
    assert_eq!(s.get_cookies("time.example").expect("get"), batch);
    let short: Vec<Vec<u8>> = (0..2u8).map(|i| vec![i + 100; 40]).collect();
    s.put_cookies("time.example", &short, &nonces(5)).expect("put short");
    assert_eq!(s.get_cookies("time.example").expect("get"), short);
}

#[test]
fn master_keys_survive_a_restart() {
    let k0 = StoredMasterKey { id: 11, key: [0x5A; 32] };
    let k1 = StoredMasterKey { id: 12, key: [0x6B; 32] };
    let log = {
        let mut s = open(b"pass", None).expect("open");
        s.put_master_key(0, &k0, &nonce(1)).expect("put 0");
        s.put_master_key(1, &k1, &nonce(2)).expect("put 1");
        s.flush().expect("flush")
    };
    let mut s = open(b"pass", Some(&log)).expect("reopen");
    assert_eq!(s.all_master_keys().expect("all"), vec![k0, k1]);
}

#[test]
fn wrong_passphrase_cannot_read_values() {
    let log = {
        let mut s = open(b"right", None).expect("open");
        s.put_master_key(0, &StoredMasterKey { id: 1, key: [9u8; 32] }, &nonce(1)).expect("put");
        s.flush().expect("flush")
    };
    let mut s = open(b"wrong", Some(&log)).expect("reopen");
    match s.get_master_key(0) {
        Err(StoreError::Crypto(_)) => {}
        other => panic!("wrong passphrase yielded {other:?}"),
    }
}

#[test]
fn secrets_never_touch_the_disk_in_clear() {
    let secret = [0xABu8; 32];
    let cookie = vec![0xCDu8; 48];
    let mut s = open(b"pass", None).expect("open");
    s.put_master_key(0, &StoredMasterKey { id: 3, key: secret }, &nonce(1)).expect("put key");
    s.put_cookies("srv", &vec![cookie.clone()], &nonces(1)).expect("put cookie");
    let raw = s.flush().expect("flush");
    assert!(
        !raw.windows(secret.len()).any(|w| w == secret),
        "master key found in cleartext on disk"
    );
    assert!(
        !raw.windows(cookie.len()).any(|w| w == cookie.as_slice()),
        "NTS cookie found in cleartext on disk"
    );
}

#[test]
fn a_sealed_value_cannot_be_moved_to_another_key() {
    let key = derive_key(b"pass", &SALT).expect("key");
    let sealed = seal(&key, &nonce(1), b"secret-value", b"cookie/serverA/0").expect("seal");
    assert!(open_value(&key, &sealed, b"cookie/serverA/0").is_ok());
    match open_value(&key, &sealed, b"cookie/serverB/0") {
        Err(SealFault::Unauthentic) => {}
        other => panic!("value moved across keys: {:?}", other.map(|_| "decrypted").is_ok()),
    }
}

#[test]
fn survives_repeated_open_flush_cycles() {
    let mut log: Option<Vec<u8>> = None;
    for cycle in 0..6u32 {
        let mut s = open(b"pass", log.as_deref()).expect("open");
        s.put_drift(
            "server",
            &drift(cycle as f64, 0.001, 1_756_224_000 + cycle as u64),
            &nonce(cycle as u8 + 1),
        )
        .expect("put");
        log = Some(s.flush().expect("flush"));
        let back = s.get_drift("server").expect("get").expect("present");
        assert!((number(&back.freq_ppm) - cycle as f64).abs() < 1e-9, "cycle {cycle}");
    }
}

#[test]
fn client_session_survives_repeated_cycles() {
    let keys = NtsKeys { c2s: [1u8; 32], s2c: [2u8; 32] };
    let cookies: Vec<Vec<u8>> = (0..9u8).map(|i| vec![i; 100]).collect();
    let mut log: Option<Vec<u8>> = None;
    for cycle in 0..4u32 {
        let mut s = open(b"pass", log.as_deref()).expect("open");
        if cycle > 0 {
            let resumed =
                s.get_client_session("ke.example").expect("resume").expect("session missing");
            assert_eq!(resumed.cookies.len(), cookies.len(), "cycle {cycle}");
            assert_eq!(resumed.cookies, cookies);
            assert_eq!(resumed.keys, keys);
            assert_eq!(resumed.ntp_server, "ntp.example");
            assert_eq!(resumed.ntp_port, 123);
        }
        s.put_client_session(
            "ke.example",
            &keys,
            &cookies,
            "ntp.example",
            123,
            &nonce(201),
            &nonce(202),
            &nonces(9),
        )
        .expect("save");
        log = Some(s.flush().expect("flush"));
    }
}

#[test]
fn truncated_file_is_reported_not_silently_ignored() {
    let raw = {
        let mut s = open(b"pass", None).expect("open");
        s.put_master_key(0, &StoredMasterKey { id: 1, key: [1u8; 32] }, &nonce(1)).expect("put");
        s.flush().expect("flush")
    };
    match open(b"pass", Some(&raw[..raw.len() / 2])) {
        Err(StoreError::Corrupt(_)) | Err(StoreError::Sdk(_)) => {}
        Ok(_) => panic!("truncated store opened as if healthy"),
        Err(e) => panic!("unexpected error {e:?}"),
    }
}

#[test]
fn a_salt_of_the_wrong_length_is_corrupt() {
    match Store::open(b"pass", &[1; 15], None) {
        Err(e) => assert!(e.message().contains("salt file is the wrong length")),
        Ok(_) => panic!("opened with a short salt"),
    }
}

#[test]
fn every_entry_of_a_log_reads_back() {
    let mut log = Vec::new();
    append_entry(&mut log, Collection::Drift, "a/b/0", "1 2 3");
    append_entry(&mut log, Collection::Keys, "k", "");
    append_entry(&mut log, Collection::Cookies, "\u{e9}", "\u{1F552}");
    let entries = match read_log(&log) {
        Ok(entries) => entries,
        Err(_) => panic!("the log should read back"),
    };
    assert_eq!(entries.len(), 3);
    assert_eq!((entries[0].key.as_str(), entries[0].value.as_str()), ("a/b/0", "1 2 3"));
    assert_eq!((entries[1].key.as_str(), entries[1].value.as_str()), ("k", ""));
    assert_eq!((entries[2].key.as_str(), entries[2].value.as_str()), ("\u{e9}", "\u{1F552}"));
    assert!(read_log(&log[..log.len() - 1]).is_err());
    assert!(read_log(&[]).is_ok());
    let mut bad = log.clone();
    let last = bad.len() - 1;
    bad[last] = 0xFF;
    assert!(read_log(&bad).is_err());
}

#[test]
fn keys_are_derived_and_values_are_sealed() {
    let a = derive_key(b"pass", &SALT).expect("key");
    let b = derive_key(b"pass", &[0; 16]).expect("key");
    let c = derive_key(b"other", &SALT).expect("key");
    assert_ne!(a, b);
    assert_ne!(a, c);
    assert_eq!(a, derive_key(b"pass", &SALT).expect("key"));
    assert_ne!(&a[..4], b"pass");
    let text = seal(&a, &nonce(7), b"value", b"where").expect("seal");
    assert!(text.starts_with("070707070707070707070707"));
    // Nonce, message and tag, two digits each.
    assert_eq!(text.len(), 2 * (12 + 5 + 16));
    match open_value(&a, &text, b"where") {
        Ok(plain) => assert_eq!(plain, b"value"),
        Err(_) => panic!("should open"),
    }
    assert!(matches!(open_value(&a, "zz", b""), Err(SealFault::NotHex)));
    assert!(matches!(open_value(&a, "00", b""), Err(SealFault::TooShort)));
    assert!(matches!(open_value(&c, &text, b"where"), Err(SealFault::Unauthentic)));
}

#[test]
fn compound_keys_keep_their_parts_apart() {
    assert_eq!(compound_key("cookie", "srv", 3), "cookie/srv/3");
    assert_ne!(compound_key("cookie", "a", 11), compound_key("cookie", "a1", 1));
}

#[test]
fn one_servers_cookies_leave_anothers_alone() {
    let mut s = open(b"pass", None).expect("open");
    let ours: Vec<Vec<u8>> = (0..3u8).map(|i| vec![i + 1; 40]).collect();
    let theirs: Vec<Vec<u8>> = (0..5u8).map(|i| vec![i + 50; 40]).collect();
    s.put_cookies("a.example", &ours, &nonces(3)).expect("put ours");
    s.put_cookies("a.example/0", &theirs, &nonces(5)).expect("put theirs");
    assert_eq!(s.get_cookies("a.example").expect("ours"), ours);
    s.put_cookies("a.example", &Vec::new(), &Vec::new()).expect("drop ours");
    assert!(s.get_cookies("a.example").expect("ours").is_empty());
    assert_eq!(s.get_cookies("a.example/0").expect("theirs"), theirs);
}

#[test]
fn a_batch_beyond_the_bound_keeps_its_first_cookies() {
    let mut s = open(b"pass", None).expect("open");
    let many: Vec<Vec<u8>> = (0..70u8).map(|i| vec![i + 1; 16]).collect();
    s.put_cookies("time.example", &many, &nonces(64)).expect("put");
    assert_eq!(s.get_cookies("time.example").expect("get"), many[..64].to_vec());
}

#[test]
fn a_bad_seal_is_found_when_the_tail_is_retired() {
    let mut s = open(b"pass", None).expect("open");
    let mut log = Vec::new();
    append_entry(&mut log, Collection::Cookies, &compound_key("cookie", "srv", 1), "not hex");
    s.load(&log).expect("load");
    match s.put_cookies("srv", &vec![vec![1u8; 16]], &nonces(1)) {
        Err(StoreError::Corrupt(what)) => assert_eq!(what, "value is not hex"),
        other => panic!("retired a bad seal: {other:?}"),
    }
    match s.get_cookies("srv") {
        Err(StoreError::Corrupt(what)) => assert_eq!(what, "value is not hex"),
        other => panic!("read a bad seal: {other:?}"),
    }
    assert!(s.put_cookies("other", &vec![vec![1u8; 16]], &nonces(1)).is_ok());
}

#[test]
fn an_unusable_log_loads_nothing() {
    let mut s = open(b"pass", None).expect("open");
    s.put_master_key(0, &StoredMasterKey { id: 4, key: [3u8; 32] }, &nonce(1)).expect("put");
    let good = s.flush().expect("flush");
    let mut fresh = open(b"pass", None).expect("open");
    assert!(fresh.load(&good[..good.len() - 1]).is_err());
    assert!(fresh.all_master_keys().expect("keys").is_empty());
    fresh.load(&good).expect("load");
    assert_eq!(fresh.get_master_key(0).expect("get").map(|k| k.id), Some(4));
    assert_eq!(fresh.flush().expect("flush"), good);
}

#[test]
fn many_writes_never_run_out_of_budget() {
    let mut s = open(b"pass", None).expect("open");
    for i in 0..600u32 {
        let record = drift(i as f64, 0.0, 1);
        s.put_drift("srv", &record, &[(i % 250) as u8; 12]).expect("put");
    }
    let back = s.get_drift("srv").expect("get").expect("present");
    assert_eq!(back.freq_ppm, "599");
}

#[test]
fn merging_a_peer_replica_carries_its_entries() {
    let mut a = open(b"pass", None).expect("open a");
    let mut b = open(b"pass", None).expect("open b");
    a.put_drift("peer.example", &drift(3.5, 0.002, 1_756_224_000), &nonce(1)).expect("put on a");
    let name = Collection::Drift.name();
    b.db.import(name, &a.db.export(name)).expect("merge");
    let got = b.get_drift("peer.example").expect("get on b");
    assert_eq!(
        got.map(|d| number(&d.freq_ppm)),
        Some(3.5),
        "peer's entry did not survive the merge"
    );
}

#[test]
fn a_restart_loses_nothing_and_adds_nothing() {
    let mut s = open(b"pass", None).expect("open");
    s.put_master_key(2, &StoredMasterKey { id: 9, key: [4u8; 32] }, &nonce(1)).expect("put key");
    s.put_cookies("srv", &vec![vec![1u8; 16], vec![2u8; 16]], &nonces(2)).expect("put cookies");
    s.put_cookies("srv", &vec![vec![3u8; 16]], &nonces(1)).expect("put fewer");
    s.put_drift("srv", &drift(1.5, -0.25, 7), &nonce(2)).expect("put drift");
    let log = s.flush().expect("flush");
    let mut back = open(b"pass", Some(&log)).expect("reopen");
    assert_eq!(back.all_master_keys().expect("keys").len(), 1);
    assert_eq!(back.get_cookies("srv").expect("cookies"), vec![vec![3u8; 16]]);
    assert_eq!(back.get_drift("srv").expect("drift").expect("present").offset_s, "-0.25");
    assert_eq!(back.flush().expect("flush again"), log);
}

#[test]
fn a_refused_batch_still_leaves_its_cookies_and_the_keys() {
    let mut s = open(b"pass", None).expect("open");
    let master = StoredMasterKey { id: 6, key: [8u8; 32] };
    s.put_master_key(0, &master, &nonce(9)).expect("put key");
    s.put_drift("srv", &drift(2.5, 0.0, 3), &nonce(8)).expect("put drift");
    let mut log = Vec::new();
    append_entry(&mut log, Collection::Cookies, &compound_key("cookie", "srv", 2), "not hex");
    s.load(&log).expect("load");
    let keys = NtsKeys { c2s: [1u8; 32], s2c: [2u8; 32] };
    let cookies = vec![vec![5u8; 16], vec![6u8; 16]];
    let done = s.put_client_session(
        "srv",
        &keys,
        &cookies,
        "ntp.example",
        123,
        &nonce(1),
        &nonce(2),
        &nonces(2),
    );
    assert!(matches!(done, Err(StoreError::Corrupt("value is not hex"))));
    assert_eq!(s.get_master_key(0).expect("key"), Some(master));
    assert_eq!(s.get_drift("srv").expect("drift").expect("present").freq_ppm, "2.5");
    // Everything was written but the entry that cannot be read.
    s.put_cookies("srv", &vec![vec![7u8; 16], vec![8u8; 16], vec![9u8; 16]], &nonces(3))
        .expect("overwrite");
    let back = s.get_client_session("srv").expect("get").expect("session");
    assert_eq!(back.keys, keys);
    assert_eq!(back.cookies.len(), 3);
}
