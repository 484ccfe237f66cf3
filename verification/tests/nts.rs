use aes_gcm::aead::{Aead, KeyInit, Payload};
use aes_gcm::{Aes256Gcm, Key, Nonce};
use rusty_time::ke::{
    exporter_context, ke_progress, ke_refusal, ke_reply, negotiate, write_record, Direction,
    Negotiation, RECORD_AEAD_ALGORITHM, RECORD_END_OF_MESSAGE, RECORD_NEXT_PROTOCOL,
};
use rusty_time::ntp::{NtpPacket, NtpTimestamp};
use rusty_time::nts_fields::{nts_fields, NONCE_LEN, NTS_COOKIE, UNIQUE_ID_LEN};
use rusty_time::nts_session::{seal_request, NtsSession, NtsSessionError};
use rusty_time::policy::RateLimitConfig;
use rusty_time::reply::{
    build_reply_in, nts_reply, nts_reply_head, reply_plaintext, stamped, ReplyPlan, ServerState,
};
use rusty_time::server::ClientTable;
use rusty_time::store::NtsKeys;
use std::collections::hash_map::RandomState;

/// A cipher that stands in for the one of the protocol.
fn seal(key: &[u8; 32], nonce: &[u8; NONCE_LEN], aad: &[u8], msg: &[u8]) -> Vec<u8> {
    let cipher = Aes256Gcm::new(Key::<Aes256Gcm>::from_slice(key));
    cipher.encrypt(Nonce::from_slice(&nonce[..12]), Payload { msg, aad }).expect("seal")
}

fn open(key: &[u8; 32], nonce: &[u8], aad: &[u8], msg: &[u8]) -> Option<Vec<u8>> {
    if nonce.len() != NONCE_LEN {
        return None;
    }
    let cipher = Aes256Gcm::new(Key::<Aes256Gcm>::from_slice(key));
    cipher.decrypt(Nonce::from_slice(&nonce[..12]), Payload { msg, aad }).ok()
}

const KEYS: NtsKeys = NtsKeys { c2s: [0x11; 32], s2c: [0x22; 32] };

/// A cookie for the session keys under a master key.
fn mint(master: &[u8; 32]) -> Vec<u8> {
    let mut plain = KEYS.c2s.to_vec();
    plain.extend_from_slice(&KEYS.s2c);
    seal(master, &[3; NONCE_LEN], b"cookie", &plain)
}

fn redeem(master: &[u8; 32], cookie: &[u8]) -> Option<NtsKeys> {
    let plain = open(master, &[3; NONCE_LEN], b"cookie", cookie)?;
    let mut keys = NtsKeys { c2s: [0; 32], s2c: [0; 32] };
    keys.c2s.copy_from_slice(&plain[..32]);
    keys.s2c.copy_from_slice(&plain[32..]);
    Some(keys)
}

const MASTER: [u8; 32] = [0x5A; 32];

fn session(cookies: Vec<Vec<u8>>) -> NtsSession {
    NtsSession::resume(KEYS, cookies, "loopback".into(), 123, "loopback".into())
}

fn protect(s: &mut NtsSession, header: &[u8; 48], uid: u8) -> Result<Vec<u8>, NtsSessionError> {
    let cookie = s.spend()?;
    let head = s.request_head(header, [uid; UNIQUE_ID_LEN], &cookie)?;
    let nonce = [4u8; NONCE_LEN];
    let ciphertext = seal(&KEYS.c2s, &nonce, &head, b"");
    Ok(seal_request(head, &nonce, &ciphertext))
}

/// A server's answer to a protected request.
fn answer(request: &[u8], master: &[u8; 32]) -> Option<Vec<u8>> {
    let mut state: ServerState<u32, RandomState> = ServerState {
        clients: ClientTable::new(
            64,
            RateLimitConfig {
                interval_log2: -20,
                burst: 1_000_000,
                leak_shift: 0,
                global_rate_nhz: 0,
                global_burst_nano: 0,
            },
        ),
        stratum: 2,
        started_unix: 0,
    };
    let recv = NtpTimestamp::from_unix(1_756_224_000, 0);
    let plan = match build_reply_in(request, &5, recv, Some(0), &mut state) {
        ReplyPlan::Authenticate(plan) => plan,
        _ => return None,
    };
    let keys = redeem(master, plan.cookie)?;
    let a = plan.authenticator;
    open(&keys.c2s, a.nonce, a.associated, a.ciphertext)?;
    let header = stamped(plan.header, plan.mode, Some(recv))?;
    let head = nts_reply_head(&header, plan.unique_id);
    let fresh: Vec<Vec<u8>> = (0..plan.cookies).map(|_| mint(master)).collect();
    let cookies = reply_plaintext(&fresh)?;
    let nonce = [6u8; NONCE_LEN];
    let sealed = seal(&keys.s2c, &nonce, &head, &cookies);
    Some(nts_reply(head, &nonce, &sealed, plan.handle).bytes.as_slice().to_vec())
}

/// The cookies of a reply that verifies.
fn verify(s: &mut NtsSession, reply: &[u8]) -> bool {
    let plain = match s.reply_authenticator(reply) {
        None => return false,
        Some(a) => match open(&KEYS.s2c, a.nonce, a.associated, a.ciphertext) {
            None => return false,
            Some(plain) => plain,
        },
    };
    let mut fresh = Vec::new();
    let mut at = 0;
    while at + 4 <= plain.len() {
        let len = u16::from_be_bytes([plain[at + 2], plain[at + 3]]) as usize;
        fresh.push(plain[at + 4..at + len].to_vec());
        at += len;
    }
    s.bank(fresh);
    true
}

#[test]
fn protect_spends_a_cookie_and_refuses_when_empty() {
    let mut s = session(vec![vec![0xAB; 32]]);
    let mut header = [0u8; 48];
    header[0] = (4 << 3) | 3;
    assert_eq!(s.cookies_held(), 1);
    let packet = protect(&mut s, &header, 7).expect("protect");
    assert_eq!(s.cookies_held(), 0, "cookie must be spent exactly once");
    assert!(packet.len() > 48);
    assert_ne!(s.pending_unique_id, [0u8; UNIQUE_ID_LEN]);
    assert!(matches!(protect(&mut s, &header, 8), Err(NtsSessionError::CookiesExhausted)));
}

#[test]
fn each_request_uses_a_distinct_unique_id() {
    let mut s = session(vec![vec![0xAB; 32], vec![0xCD; 32]]);
    let mut header = [0u8; 48];
    header[0] = (4 << 3) | 3;
    let _ = protect(&mut s, &header, 1).expect("first");
    let first = s.pending_unique_id;
    let _ = protect(&mut s, &header, 2).expect("second");
    assert_ne!(first, s.pending_unique_id, "unique id must not repeat");
}

#[test]
fn nts_round_trip_client_to_server() {
    let mut s = session(vec![mint(&MASTER)]);
    let header = NtpPacket::client_request(4, NtpTimestamp(0xAABB_CCDD_1122_3344)).to_bytes();
    let request = protect(&mut s, &header, 9).expect("protect");
    let reply = answer(&request, &MASTER).expect("reply");
    assert_eq!(s.cookies_held(), 0, "cookie spent");
    assert!(verify(&mut s, &reply), "client verifies server reply");
    assert!(s.cookies_held() >= 1, "server must replenish the spent cookie");
}

#[test]
fn forged_authenticator_gets_no_answer() {
    let mut s = session(vec![mint(&MASTER)]);
    let header = NtpPacket::client_request(4, NtpTimestamp(1)).to_bytes();
    let mut request = protect(&mut s, &header, 9).expect("protect");
    let last = request.len() - 1;
    request[last] ^= 0xFF;
    assert!(answer(&request, &MASTER).is_none(), "server answered a forged NTS request");
}

#[test]
fn unknown_cookie_gets_no_answer() {
    let mut s = session(vec![mint(&[0xEE; 32])]);
    let header = NtpPacket::client_request(4, NtpTimestamp(1)).to_bytes();
    let request = protect(&mut s, &header, 9).expect("protect");
    assert!(answer(&request, &MASTER).is_none());
}

#[test]
fn placeholder_count_cannot_amplify_without_bound() {
    // Sixty placeholders, each as long as the cookie.
    let mut s = session(vec![mint(&MASTER)]);
    let header = NtpPacket::client_request(4, NtpTimestamp(1)).to_bytes();
    let cookie = s.spend().expect("cookie");
    let mut head = s.request_head(&header, [9; UNIQUE_ID_LEN], &cookie).expect("head");
    for _ in 0..53 {
        head.extend_from_slice(&0x0304u16.to_be_bytes());
        head.extend_from_slice(&(cookie.len() as u16 + 4).to_be_bytes());
        head.extend_from_slice(&vec![0u8; cookie.len()]);
    }
    assert_eq!(nts_fields(&head).placeholders, 60);
    let nonce = [4u8; NONCE_LEN];
    let ciphertext = seal(&KEYS.c2s, &nonce, &head, b"");
    let request = seal_request(head, &nonce, &ciphertext);
    let reply = answer(&request, &MASTER).expect("reply");
    assert!(
        reply.len() <= request.len(),
        "reply ({}) exceeded request ({}): amplification",
        reply.len(),
        request.len()
    );
}

#[test]
fn a_reply_to_another_request_is_not_ours() {
    let mut s = session(vec![mint(&MASTER), mint(&MASTER)]);
    let header = NtpPacket::client_request(4, NtpTimestamp(1)).to_bytes();
    let first = protect(&mut s, &header, 1).expect("protect");
    let _ = protect(&mut s, &header, 2).expect("protect");
    let reply = answer(&first, &MASTER).expect("reply");
    assert!(s.reply_authenticator(&reply).is_none());
}

#[test]
fn a_request_asks_for_what_is_missing() {
    for (held, wanted) in [(0, 7), (1, 7), (4, 4), (8, 0), (12, 0)] {
        let mut s = session(vec![vec![1; 16]; held]);
        let header = [0u8; 48];
        let head = s.request_head(&header, [1; UNIQUE_ID_LEN], &[2; 16]).expect("head");
        let fields = nts_fields(&head);
        assert_eq!(fields.placeholders, wanted, "with {held} held");
        assert_eq!(fields.cookie, Some(&[2u8; 16][..]));
        assert_eq!(fields.unique_id, Some(&[1u8; UNIQUE_ID_LEN][..]));
    }
}

#[test]
fn a_cookie_that_fits_no_field_is_refused() {
    for len in [0, 8, 13, 0xFFFC] {
        let mut s = session(vec![]);
        let head = s.request_head(&[0u8; 48], [1; UNIQUE_ID_LEN], &vec![2; len]);
        assert_eq!(head, Err(NtsSessionError::UnusableCookie), "{len}");
    }
    assert!(!NtsSessionError::UnusableCookie.message().is_empty());
    assert!(NtsSessionError::CookiesExhausted.message().contains("exhausted"));
}

#[test]
fn the_cookie_store_is_first_in_first_out_and_bounded() {
    let mut s = session((0..3u8).map(|i| vec![i; 16]).collect());
    assert_eq!(s.keys().c2s, KEYS.c2s);
    s.bank((10..40u8).map(|i| vec![i; 16]).collect());
    assert_eq!(s.cookies_held(), 16);
    let all = s.unspent_cookies();
    assert_eq!(all[0], vec![0; 16]);
    assert_eq!(all[3], vec![10; 16]);
    let mut spent = Vec::new();
    while let Ok(cookie) = s.spend() {
        spent.push(cookie);
    }
    assert_eq!(spent, all);
}

fn request() -> Vec<u8> {
    let mut out = Vec::new();
    write_record(&mut out, true, RECORD_NEXT_PROTOCOL, &[0, 0]);
    write_record(&mut out, true, RECORD_AEAD_ALGORITHM, &[0, 15]);
    write_record(&mut out, true, RECORD_END_OF_MESSAGE, &[]);
    out
}

#[test]
fn key_establishment_accepts_what_it_speaks() {
    assert!(matches!(negotiate(&request()), Negotiation::Accepted { .. }));
    let mut other = Vec::new();
    write_record(&mut other, true, RECORD_NEXT_PROTOCOL, &[0, 0]);
    write_record(&mut other, true, RECORD_AEAD_ALGORITHM, &[0, 16]);
    write_record(&mut other, true, RECORD_END_OF_MESSAGE, &[]);
    assert!(matches!(negotiate(&other), Negotiation::Refused { .. }));
    assert!(matches!(negotiate(&[0x80]), Negotiation::Malformed));
}

#[test]
fn a_request_is_read_until_its_end() {
    let whole = request();
    for n in 0..whole.len() {
        let progress = ke_progress(&whole[..n]);
        let done = ke_progress(&whole);
        assert_ne!(format!("{progress:?}"), format!("{done:?}"), "ended early at {n}");
    }
}

#[test]
fn replies_carry_cookies_and_the_port_only_where_needed() {
    let cookies = vec![vec![7u8; 20], vec![8u8; 20]];
    let plain = ke_reply(123, &cookies);
    let moved = ke_reply(1123, &cookies);
    assert!(moved.len() > plain.len());
    assert!(plain.windows(20).any(|w| w == [8u8; 20]));
    assert!(!ke_refusal().is_empty());
}

#[test]
fn the_two_directions_export_different_keys() {
    assert_eq!(exporter_context(Direction::ClientToServer), [0, 0, 0, 15, 0]);
    assert_eq!(exporter_context(Direction::ServerToClient), [0, 0, 0, 15, 1]);
}

#[test]
fn a_reply_seals_one_field_for_each_cookie() {
    let cookies = vec![vec![7u8; 16], vec![8u8; 12]];
    let plaintext = reply_plaintext(&cookies).expect("both fit");
    let mut by_hand = vec![0x02, 0x04, 0, 20];
    by_hand.extend_from_slice(&[7; 16]);
    by_hand.extend_from_slice(&[0x02, 0x04, 0, 16]);
    by_hand.extend_from_slice(&[8; 12]);
    assert_eq!(plaintext, by_hand);
    assert_eq!(reply_plaintext(&Vec::new()), Some(Vec::new()));
    for len in [0, 8, 13, 0xFFFC] {
        assert_eq!(reply_plaintext(&vec![vec![1u8; 16], vec![1u8; len]]), None, "{len}");
    }
}
