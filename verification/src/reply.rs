//! What the server answers: which requests, with which header, and how an
//! authenticated reply is framed.
//!
//! The caller owns the clock, the socket and the cipher. It hands a request to
//! [`build_reply_in`], which decides everything that can be decided from the
//! bytes and the client table, and performs the plan that comes back.

use std::hash::{BuildHasher, Hash};
use vstd::prelude::*;
use vstd::slice::slice_subrange;

use crate::ntp::{
    a_header_decodes_one_way, header_of, LeapIndicator, Mode, NtpPacket, NtpShort, NtpTimestamp,
    HEADER_LEN,
};
use crate::nts_fields::{
    authenticator_body, authenticator_fits, body_ciphertext, body_nonce, client_authenticator,
    field_bytes, nts_fields, nts_scan, padded, write_authenticator, write_field, Authenticator,
    NtsFields, NONCE_LEN, NTS_AUTHENTICATOR, NTS_COOKIE, UNIQUE_IDENTIFIER, UNIQUE_ID_LEN,
};
use crate::nts_session::{contents, fits_a_field};
use crate::policy::{bumped, Disposition, ResponseMode, ServerStats, TableState};
use crate::server::{ClientHandle, ClientTable};

verus! {

/// Cap on how many cookies one NTP reply may carry, so a request stuffed with
/// placeholders cannot be used as an amplification lever.
pub const MAX_REPLY_COOKIES: usize = 8;

/// Root dispersion that the server reports: 0.1 ms in 16.16 fixed point.
pub const SERVER_DISPERSION: u32 = 6;

/// Everything the NTP responder decides by.
#[verifier::reject_recursive_types(K)]
#[verifier::reject_recursive_types(S)]
pub struct ServerState<K, S> {
    pub clients: ClientTable<K, S>,
    pub stratum: u8,
    pub started_unix: u64,
}

/// The bytes of one reply: a plain response is always exactly one header; only
/// an authenticated one, which carries cookies, is longer.
pub enum ReplyBytes {
    Plain([u8; HEADER_LEN]),
    Extended(Vec<u8>),
}

impl View for ReplyBytes {
    type V = Seq<u8>;

    open spec fn view(&self) -> Seq<u8> {
        match *self {
            ReplyBytes::Plain(buf) => buf@,
            ReplyBytes::Extended(v) => v@,
        }
    }
}

impl ReplyBytes {
    pub fn as_slice(&self) -> (bytes: &[u8])
        ensures
            bytes@ == self@,
    {
        match self {
            ReplyBytes::Plain(buf) => buf.as_slice(),
            ReplyBytes::Extended(v) => v.as_slice(),
        }
    }
}

/// One built reply, plus the handle addressing the client it is for, so the
/// caller can record the true transmit time after the send.
pub struct Reply {
    pub bytes: ReplyBytes,
    pub handle: ClientHandle,
}

/// An authenticated request whose cookie is still to be redeemed.
pub struct NtsPlan<'a> {
    /// The reply's header; [`stamped`] completes it.
    pub header: NtpPacket,
    pub mode: ResponseMode,
    pub handle: ClientHandle,
    /// The cookie to redeem for the session keys.
    pub cookie: &'a [u8],
    /// What the reply must echo.
    pub unique_id: &'a [u8],
    /// How many fresh cookies the reply carries.
    pub cookies: usize,
    /// What must verify under the session's client key before anything is sent.
    pub authenticator: Authenticator<'a>,
}

/// What to do about one request.
pub enum ReplyPlan<'a> {
    /// Say nothing.
    Ignore,
    /// Send this.
    Send(Reply),
    /// A plain answer: complete the header with [`stamped`] as late as possible,
    /// then send it.
    Stamp { header: NtpPacket, mode: ResponseMode, handle: ClientHandle },
    /// An authenticated answer, if the cookie redeems and the authenticator
    /// verifies.
    Authenticate(NtsPlan<'a>),
}

/// Whether a packet is one that the server answers at all: a whole header, a
/// version it speaks, and client mode. Anything else is never reflected.
pub open spec fn is_request(packet: Seq<u8>) -> bool {
    &&& packet.len() >= HEADER_LEN
    &&& 3 <= packet[0] / 8 % 8 <= 4
    &&& packet[0] % 8 == Mode::Client.code()
}

/// A receive timestamp as the server marks it: lowest bit set.
pub open spec fn marked_receive(ts: NtpTimestamp) -> NtpTimestamp {
    NtpTimestamp((ts.0 - ts.0 % 2 + 1) as u64)
}

/// A transmit timestamp as the server marks it: lowest bit clear.
pub open spec fn marked_transmit(ts: NtpTimestamp) -> NtpTimestamp {
    NtpTimestamp((ts.0 - ts.0 % 2) as u64)
}

/// Whether `reply` is the kiss-of-death for a request received at `recv_ts`:
/// stratum 0 and the code RATE, with the client's own transmit time echoed.
pub open spec fn is_kiss(reply: NtpPacket, request: NtpPacket, recv_ts: NtpTimestamp) -> bool {
    &&& reply.leap is NoWarning
    &&& reply.version == request.version
    &&& reply.mode is Server
    &&& reply.stratum == 0
    &&& reply.poll == request.poll
    &&& reply.precision == -20
    &&& reply.root_delay.0 == 0
    &&& reply.root_dispersion.0 == 0
    &&& reply.reference_id@ == seq![0x52u8, 0x41u8, 0x54u8, 0x45u8]
    &&& reply.reference_ts.0 == 0
    &&& reply.origin_ts == request.transmit_ts
    &&& reply.receive_ts == recv_ts
    &&& reply.transmit_ts == recv_ts
}

/// Whether `reply` answers a request received at `recv_ts` in this mode.
///
/// The origin field tells the client which mode this reply is in: basic echoes
/// the request's transmit, interleaved echoes the request's *receive*. Receive
/// is always this exchange's; only an interleaved transmit looks backwards.
pub open spec fn is_answer(
    reply: NtpPacket,
    request: NtpPacket,
    recv_ts: NtpTimestamp,
    mode: ResponseMode,
    stratum: u8,
) -> bool {
    &&& reply.leap is NoWarning
    &&& reply.version == request.version
    &&& reply.mode is Server
    &&& reply.stratum == stratum
    &&& reply.poll == request.poll
    &&& reply.precision == -20
    &&& reply.root_delay.0 == 0
    &&& reply.root_dispersion.0 == SERVER_DISPERSION
    &&& reply.reference_id@ == seq![0x52u8, 0x53u8, 0x54u8, 0x59u8]
    &&& reply.reference_ts == recv_ts
    &&& reply.receive_ts == marked_receive(recv_ts)
    &&& match mode {
        ResponseMode::Basic => reply.origin_ts == request.transmit_ts && reply.transmit_ts
            == marked_transmit(recv_ts),
        ResponseMode::Interleaved { prev_transmit } => reply.origin_ts == request.receive_ts
            && reply.transmit_ts == marked_transmit(prev_transmit),
    }
}

/// A Kiss-o'-Death RATE response: stratum 0 carrying a four-character kiss
/// code, which tells a conforming client to back off rather than retry harder.
pub fn kiss_of_death(request: &NtpPacket, recv_ts: NtpTimestamp) -> (bytes: [u8; HEADER_LEN])
    ensures
        exists|reply: NtpPacket|
            is_kiss(reply, *request, recv_ts) && bytes@ == #[trigger] reply.wire(),
{
    let code: [u8; 4] = [0x52, 0x41, 0x54, 0x45];
    assert(code@ =~= seq![0x52u8, 0x41u8, 0x54u8, 0x45u8]);
    let reply = NtpPacket {
        leap: LeapIndicator::NoWarning,
        version: request.version,
        mode: Mode::Server,
        stratum: 0,
        poll: request.poll,
        precision: -20,
        root_delay: NtpShort(0),
        root_dispersion: NtpShort(0),
        reference_id: code,
        reference_ts: NtpTimestamp(0),
        origin_ts: request.transmit_ts,
        receive_ts: recv_ts,
        transmit_ts: recv_ts,
    };
    assert(is_kiss(reply, *request, recv_ts));
    reply.to_bytes()
}

/// Unix (seconds, nanoseconds) to an NTP timestamp.
pub fn unix_parts_to_ntp(secs: i64, nanos: u32) -> (ts: NtpTimestamp)
    ensures
        ts.0 == crate::ntp::unix_ticks(secs as int, nanos as int),
{
    NtpTimestamp::from_unix(secs, nanos)
}

fn answer_header(
    request: &NtpPacket,
    recv_ts: NtpTimestamp,
    mode: ResponseMode,
    stratum: u8,
) -> (reply: NtpPacket)
    ensures
        is_answer(reply, *request, recv_ts, mode, stratum),
{
    let name: [u8; 4] = [0x52, 0x53, 0x54, 0x59];
    assert(name@ =~= seq![0x52u8, 0x53u8, 0x54u8, 0x59u8]);
    let mut receive_ts: NtpTimestamp = recv_ts;
    let (origin_ts, mut transmit_ts): (NtpTimestamp, NtpTimestamp) = match mode {
        ResponseMode::Basic => (request.transmit_ts, recv_ts),
        ResponseMode::Interleaved { prev_transmit } => (request.receive_ts, prev_transmit),
    };
    crate::policy::mark_server_timestamps(&mut receive_ts, &mut transmit_ts);
    NtpPacket {
        leap: LeapIndicator::NoWarning,
        version: request.version,
        mode: Mode::Server,
        stratum,
        poll: request.poll,
        precision: -20,
        root_delay: NtpShort(0),
        root_dispersion: NtpShort(SERVER_DISPERSION),
        reference_id: name,
        reference_ts: recv_ts,
        origin_ts,
        receive_ts,
        transmit_ts,
    }
}

/// The client table after a request that could be answered at all.
pub open spec fn table_after<K>(
    table: TableState<K>,
    request: NtpPacket,
    key: K,
    recv_ts: NtpTimestamp,
    now: u64,
) -> TableState<K> {
    let asked = table.admitted(key, now);
    if table.disposition(key, now) is Respond {
        asked.mode_chosen(key, request.origin_ts).response_noted(
            key,
            recv_ts,
            marked_receive(recv_ts),
        )
    } else {
        asked
    }
}

/// How many cookies a reply carries: one for the cookie being spent, one for
/// each placeholder, up to the cap.
pub open spec fn reply_cookies(placeholders: nat) -> nat {
    if 1 + placeholders < MAX_REPLY_COOKIES {
        1 + placeholders
    } else {
        MAX_REPLY_COOKIES as nat
    }
}

impl<K, S> ServerState<K, S> {
    pub open spec fn wf(&self) -> bool {
        self.clients.wf()
    }
}

/// Decide what to do about one request that arrived at `recv_ts`; `now` is the
/// monotonic clock in nanoseconds, if it could be read.
///
/// The rate limit comes before any cryptography, so an unauthenticated flood
/// cannot make the server work. A request that carries an authenticator is
/// answered as authenticated or not at all.
pub fn build_reply_in<'a, K: Eq + Hash + Copy, S: BuildHasher>(
    request: &'a [u8],
    key: &K,
    recv_ts: NtpTimestamp,
    now: Option<u64>,
    state: &mut ServerState<K, S>,
) -> (plan: ReplyPlan<'a>)
    requires
        old(state).wf(),
    ensures
        final(state).wf(),
        final(state).stratum == old(state).stratum,
        final(state).started_unix == old(state).started_unix,
        // What is not a request is refused, and counted.
        !is_request(request@) ==> plan is Ignore && final(state).clients@ == (TableState {
            stats: ServerStats {
                refused: bumped(old(state).clients@.stats.refused),
                ..old(state).clients@.stats
            },
            ..old(state).clients@
        }),
        // Without a clock nothing can be limited, so nothing is answered.
        is_request(request@) && now is None ==> plan is Ignore && final(state).clients@ == old(
            state,
        ).clients@,
        is_request(request@) && now is Some ==> {
            let packet = header_of(request@);
            let table = old(state).clients@;
            let asked = table.admitted(*key, now->Some_0);
            let mode = asked.mode(*key, packet.origin_ts);
            let scan = nts_scan(request@);
            let stratum = old(state).stratum;
            &&& final(state).clients@ == table_after(table, packet, *key, recv_ts, now->Some_0)
            &&& match table.disposition(*key, now->Some_0) {
                Disposition::Drop => plan is Ignore,
                Disposition::KissOfDeath => plan is Send && plan->Send_0.bytes is Plain && (
                exists|reply: NtpPacket|
                    is_kiss(reply, packet, recv_ts) && plan->Send_0.bytes@
                        == #[trigger] reply.wire()) && final(state).clients.client_of(
                    plan->Send_0.handle,
                ) == if table.refused_globally(now->Some_0) {
                    None
                } else {
                    Some(*key)
                },
                Disposition::Respond => match scan.authenticator {
                    None => plan is Stamp && is_answer(
                        plan->header,
                        packet,
                        recv_ts,
                        mode,
                        stratum,
                    ) && plan->mode == mode && final(state).clients.client_of(plan->handle) == Some(
                        *key,
                    ),
                    Some((body, offset)) => if scan.cookie is Some && scan.unique_id is Some
                        && authenticator_fits(body) {
                        plan is Authenticate && {
                            let nts = plan->Authenticate_0;
                            &&& is_answer(nts.header, packet, recv_ts, mode, stratum)
                            &&& nts.mode == mode
                            &&& final(state).clients.client_of(nts.handle) == Some(*key)
                            &&& nts.cookie@ == scan.cookie->Some_0
                            &&& nts.unique_id@ == scan.unique_id->Some_0
                            &&& nts.unique_id@.len() >= 12 && nts.unique_id@.len() % 4 == 0
                            &&& nts.cookies == reply_cookies(scan.placeholders)
                            &&& nts.authenticator.nonce@ == body_nonce(body)
                            &&& nts.authenticator.ciphertext@ == body_ciphertext(body)
                            &&& nts.authenticator.associated@ == request@.subrange(0, offset)
                        }
                    } else {
                        plan is Ignore
                    },
                },
            }
        },
{
    let parsed: NtpPacket = match NtpPacket::parse(request) {
        Ok(p) => p,
        Err(_) => {
            state.clients.note_refused();
            return ReplyPlan::Ignore;
        },
    };
    proof {
        a_header_decodes_one_way(request@, parsed, parsed);
    }
    if parsed.mode != Mode::Client {
        state.clients.note_refused();
        return ReplyPlan::Ignore;
    }
    let now: u64 = match now {
        Some(t) => t,
        None => {
            return ReplyPlan::Ignore;
        },
    };
    let (disposition, handle): (Disposition, ClientHandle) = state.clients.admit_handle(key, now);
    match disposition {
        Disposition::Respond => {},
        Disposition::KissOfDeath => {
            return ReplyPlan::Send(
                Reply { bytes: ReplyBytes::Plain(kiss_of_death(&parsed, recv_ts)), handle },
            );
        },
        Disposition::Drop => {
            return ReplyPlan::Ignore;
        },
    }
    let mode: ResponseMode = state.clients.response_mode_at(handle, parsed.origin_ts);
    let header: NtpPacket = answer_header(&parsed, recv_ts, mode, state.stratum);
    // Remember what we received and what we told them, so the next request can
    // be recognised as interleaved.
    state.clients.note_response_at(handle, recv_ts, header.receive_ts);
    let fields: NtsFields<'a> = nts_fields(request);
    match fields.authenticator {
        None => ReplyPlan::Stamp { header, mode, handle },
        Some(field) => match (fields.cookie, fields.unique_id, client_authenticator(request, field)) {
            (Some(cookie), Some(unique_id), Some(authenticator)) => {
                let cookies: usize = if fields.placeholders < MAX_REPLY_COOKIES - 1 {
                    1 + fields.placeholders
                } else {
                    MAX_REPLY_COOKIES
                };
                ReplyPlan::Authenticate(
                    NtsPlan { header, mode, handle, cookie, unique_id, cookies, authenticator },
                )
            },
            _ => ReplyPlan::Ignore,
        },
    }
}


/// What a reply's header comes to at the moment of sending, with the time just
/// read from the clock.
pub open spec fn stamped_header(
    header: NtpPacket,
    mode: ResponseMode,
    clock: Option<NtpTimestamp>,
) -> Option<NtpPacket> {
    match mode {
        ResponseMode::Interleaved { .. } => Some(header),
        ResponseMode::Basic => match clock {
            None => None,
            Some(tx) => Some(NtpPacket { transmit_ts: marked_transmit(tx), ..header }),
        },
    }
}

/// A reply's header at the moment of sending: a basic reply carries the time
/// just read from the clock, as late as possible; an interleaved one carries the
/// previous exchange's transmit time, which must not be overwritten. Without a
/// clock reading a basic reply cannot be sent.
pub fn stamped(header: NtpPacket, mode: ResponseMode, clock: Option<NtpTimestamp>) -> (ready: Option<
    NtpPacket,
>)
    ensures
        ready == stamped_header(header, mode, clock),
        ready == match mode {
            ResponseMode::Interleaved { .. } => Some(header),
            ResponseMode::Basic => match clock {
                None => None,
                Some(tx) => Some(NtpPacket { transmit_ts: marked_transmit(tx), ..header }),
            },
        },
{
    match mode {
        ResponseMode::Interleaved { .. } => Some(header),
        ResponseMode::Basic => match clock {
            None => None,
            Some(tx) => {
                let mut ready: NtpPacket = header;
                ready.transmit_ts = NtpTimestamp(tx.0 - tx.0 % 2);
                Some(ready)
            },
        },
    }
}

/// The plain reply with this header.
pub fn plain_reply(header: &NtpPacket, handle: ClientHandle) -> (reply: Reply)
    ensures
        reply.bytes is Plain,
        reply.bytes@ == header.wire(),
        reply.handle == handle,
{
    Reply { bytes: ReplyBytes::Plain(header.to_bytes()), handle }
}

/// As much of a unique identifier as is echoed.
pub open spec fn echoed(unique_id: Seq<u8>) -> Seq<u8> {
    if unique_id.len() < UNIQUE_ID_LEN {
        unique_id
    } else {
        unique_id.subrange(0, UNIQUE_ID_LEN as int)
    }
}

/// The part of an authenticated reply that its authenticator vouches for: the
/// header, and the client's unique identifier, which binds reply to request.
pub fn nts_reply_head(header: &NtpPacket, unique_id: &[u8]) -> (head: Vec<u8>)
    requires
        unique_id@.len() >= 12,
        unique_id@.len() % 4 == 0,
    ensures
        head@ == header.wire() + field_bytes(UNIQUE_IDENTIFIER, echoed(unique_id@)),
{
    let mut head: Vec<u8> = Vec::new();
    head.extend_from_slice(header.to_bytes().as_slice());
    assert(head@ =~= header.wire());
    let n: usize = if unique_id.len() < UNIQUE_ID_LEN { unique_id.len() } else { UNIQUE_ID_LEN };
    let echo: &[u8] = slice_subrange(unique_id, 0, n);
    assert(echo@ =~= echoed(unique_id@));
    write_field(&mut head, UNIQUE_IDENTIFIER, echo);
    head
}

/// The fields that carry these cookies, in order.
pub open spec fn cookie_fields(cookies: Seq<Seq<u8>>) -> Seq<u8>
    decreases cookies.len(),
{
    if cookies.len() == 0 {
        Seq::empty()
    } else {
        cookie_fields(cookies.drop_last()) + field_bytes(NTS_COOKIE, cookies.last())
    }
}

/// What an authenticated reply seals: a field for each of the fresh cookies, or
/// nothing where one of them does not fit a field.
pub fn reply_plaintext(cookies: &Vec<Vec<u8>>) -> (plaintext: Option<Vec<u8>>)
    ensures
        match plaintext {
            Some(p) => p@ == cookie_fields(contents(cookies@)) && forall|i: int|
                0 <= i < cookies@.len() ==> fits_a_field((#[trigger] cookies@[i])@),
            None => exists|i: int|
                0 <= i < cookies@.len() && !fits_a_field((#[trigger] cookies@[i])@),
        },
{
    let mut plaintext: Vec<u8> = Vec::new();
    let ghost all = contents(cookies@);
    let mut i: usize = 0;
    assert(all.take(0) =~= Seq::empty());
    assert(plaintext@ =~= cookie_fields(all.take(0)));
    while i < cookies.len()
        invariant
            i <= cookies@.len(),
            all == contents(cookies@),
            plaintext@ == cookie_fields(all.take(i as int)),
            forall|k: int| 0 <= k < i ==> fits_a_field((#[trigger] cookies@[k])@),
        decreases cookies@.len() - i,
    {
        let cookie: &Vec<u8> = &cookies[i];
        if cookie.len() < 12 || cookie.len() > 0xFFFB || cookie.len() % 4 != 0 {
            assert(!fits_a_field(cookies@[i as int]@));
            return None;
        }
        write_field(&mut plaintext, NTS_COOKIE, cookie.as_slice());
        proof {
            assert(all.take(i + 1).drop_last() =~= all.take(i as int));
            assert(all.take(i + 1).last() == cookie@);
        }
        i = i + 1;
    }
    assert(all.take(i as int) =~= all);
    Some(plaintext)
}

/// Complete an authenticated reply with the sealed cookies.
pub fn nts_reply(head: Vec<u8>, nonce: &[u8; NONCE_LEN], ciphertext: &[u8], handle: ClientHandle) -> (
reply: Reply)
    requires
        8 + NONCE_LEN + padded(ciphertext@.len()) <= 0xFFFF,
    ensures
        reply.bytes is Extended,
        reply.bytes@ == head@ + field_bytes(
            NTS_AUTHENTICATOR,
            authenticator_body(nonce@, ciphertext@),
        ),
        reply.handle == handle,
{
    let mut bytes: Vec<u8> = head;
    write_authenticator(&mut bytes, nonce.as_slice(), ciphertext);
    Reply { bytes: ReplyBytes::Extended(bytes), handle }
}

/// No answer is ambiguous about its mode: its receive and transmit timestamps
/// differ in their lowest bit, before stamping and after.
pub proof fn receive_and_transmit_never_coincide(
    reply: NtpPacket,
    request: NtpPacket,
    recv_ts: NtpTimestamp,
    mode: ResponseMode,
    stratum: u8,
    clock: NtpTimestamp,
)
    requires
        is_answer(reply, request, recv_ts, mode, stratum),
    ensures
        reply.receive_ts.0 % 2 == 1,
        reply.transmit_ts.0 % 2 == 0,
        marked_transmit(clock).0 % 2 == 0,
{
}

/// The receive timestamp that a reply carries is exactly what the client must
/// echo to be answered in interleaved mode next, with the time at which that
/// reply really left.
pub proof fn echoing_a_reply_interleaves<K>(
    table: TableState<K>,
    request: NtpPacket,
    key: K,
    recv_ts: NtpTimestamp,
    now: u64,
    left: NtpTimestamp,
)
    requires
        crate::policy::distinct(table.clients),
        table.capacity >= 1,
        table.disposition(key, now) is Respond,
    ensures
        table_after(table, request, key, recv_ts, now).transmit_noted(key, left).mode(
            key,
            marked_receive(recv_ts),
        ) == (ResponseMode::Interleaved { prev_transmit: left }),
{
    crate::client_laws::admitting_touches_one_record(table, key, now, key);
    let asked = table.admitted(key, now);
    assert(!table.refused_globally(now));
    let chosen = asked.mode_chosen(key, request.origin_ts);
    crate::client_laws::choosing_a_mode_keeps_the_clients(asked, key, request.origin_ts);
    crate::client_laws::interleaved_reports_the_named_response(
        chosen,
        key,
        recv_ts,
        marked_receive(recv_ts),
        left,
        marked_receive(recv_ts),
    );
}

/// Every fresh cookie of a reply is found: behind the fields of those before it,
/// a walk comes to the field that carries it.
pub proof fn fresh_cookies_are_found(cookies: Seq<Seq<u8>>, i: int)
    requires
        0 <= i < cookies.len(),
        fits_a_field(cookies[i]),
    ensures
        ({
            let before = cookie_fields(cookies.take(i));
            let rest = cookie_fields(cookies).skip(before.len() as int);
            &&& cookie_fields(cookies).take(before.len() as int) == before
            &&& crate::ntp::starts_with_field(rest)
            &&& crate::wire::be_value(rest.subrange(0, 2)) == NTS_COOKIE
            &&& rest.subrange(4, crate::ntp::claimed_len(rest) as int) == cookies[i]
        }),
{
    let before = cookie_fields(cookies.take(i));
    let all = cookie_fields(cookies);
    let field = field_bytes(NTS_COOKIE, cookies[i]);
    lemma_fields_in_front(cookies, i);
    let n = (before + field).len() as int;
    let tail = all.skip(n);
    assert(all =~= all.take(n) + tail);
    assert(all.take(before.len() as int) =~= before);
    assert(all.skip(before.len() as int) =~= field + tail);
    crate::nts_fields::written_field_is_found(NTS_COOKIE, cookies[i], tail);
}

proof fn lemma_fields_in_front(cookies: Seq<Seq<u8>>, i: int)
    requires
        0 <= i < cookies.len(),
    ensures
        ({
            let front = cookie_fields(cookies.take(i)) + field_bytes(NTS_COOKIE, cookies[i]);
            &&& front.len() <= cookie_fields(cookies).len()
            &&& cookie_fields(cookies).take(front.len() as int) == front
        }),
    decreases cookies.len(),
{
    let all = cookie_fields(cookies);
    let front = cookie_fields(cookies.take(i)) + field_bytes(NTS_COOKIE, cookies[i]);
    let shorter = cookies.drop_last();
    if i == cookies.len() - 1 {
        assert(cookies.take(i) =~= shorter);
        assert(all.take(front.len() as int) =~= front);
    } else {
        lemma_fields_in_front(shorter, i);
        assert(shorter.take(i) =~= cookies.take(i));
        assert(all.take(front.len() as int) =~= cookie_fields(shorter).take(front.len() as int));
    }
}

/// An authenticated reply reads back: a walk over its fields finds the echoed
/// identifier and an authenticator that covers everything before it.
pub proof fn nts_reply_reads_back(
    header: NtpPacket,
    unique_id: Seq<u8>,
    nonce: Seq<u8>,
    ciphertext: Seq<u8>,
)
    requires
        unique_id.len() >= 12,
        unique_id.len() % 4 == 0,
        nonce.len() == NONCE_LEN,
        8 + NONCE_LEN + padded(ciphertext.len()) <= 0xFFFF,
    ensures
        ({
            let head = header.wire() + field_bytes(UNIQUE_IDENTIFIER, echoed(unique_id));
            let scan = nts_scan(
                head + field_bytes(NTS_AUTHENTICATOR, authenticator_body(nonce, ciphertext)),
            );
            &&& scan.unique_id == Some(echoed(unique_id))
            &&& scan.authenticator == Some(
                (authenticator_body(nonce, ciphertext), head.len() as int),
            )
            &&& scan.cookie is None
            &&& scan.placeholders == 0
        }),
{
    let echo = echoed(unique_id);
    let body = authenticator_body(nonce, ciphertext);
    let head = header.wire() + field_bytes(UNIQUE_IDENTIFIER, echo);
    let tail = field_bytes(NTS_AUTHENTICATOR, body);
    let packet = head + tail;
    crate::wire::lemma_be_bytes_len(nonce.len(), 2);
    crate::wire::lemma_be_bytes_len(ciphertext.len(), 2);
    crate::wire::lemma_be_bytes_len(UNIQUE_IDENTIFIER as nat, 2);
    crate::wire::lemma_be_bytes_len(echo.len() + 4, 2);
    crate::ntp::lemma_wire_parts(header);
    assert(body.len() % 4 == 0);
    crate::nts_fields::written_field_is_found(UNIQUE_IDENTIFIER, echo, tail);
    crate::nts_fields::written_field_is_found(NTS_AUTHENTICATOR, body, Seq::empty());
    let rest = packet.subrange(HEADER_LEN as int, packet.len() as int);
    assert(rest =~= field_bytes(UNIQUE_IDENTIFIER, echo) + tail);
    assert(tail =~= tail + Seq::<u8>::empty());
    reveal_with_fuel(crate::nts_fields::scan_from, 3);
}

} // verus!
