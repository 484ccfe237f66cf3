//! NTS key establishment (RFC 8915 section 4): the record layer, what a client's
//! request asks for, and the two messages a server answers with. The TLS channel
//! and the cookies themselves belong to the caller.

use vstd::prelude::*;
use vstd::slice::slice_subrange;

use crate::wire::{
    be_bytes, be_decode_of_encode, be_value, byte_range, lemma_be_bytes_len, read_u16, u16_bytes,
};

verus! {

pub const RECORD_END_OF_MESSAGE: u16 = 0;

pub const RECORD_NEXT_PROTOCOL: u16 = 1;

pub const RECORD_ERROR: u16 = 2;

pub const RECORD_AEAD_ALGORITHM: u16 = 4;

pub const RECORD_NEW_COOKIE: u16 = 5;

pub const RECORD_PORT_NEGOTIATION: u16 = 7;

/// NTPv4, the one protocol negotiated.
pub const NEXT_PROTO_NTPV4: u16 = 0;

/// AEAD_AES_SIV_CMAC_256, the one cipher negotiated.
pub const AEAD_AES_SIV_CMAC_256: u16 = 15;

/// The error code for a request that cannot be served.
pub const ERROR_BAD_REQUEST: u16 = 1;

/// Where NTP is unless the reply says otherwise.
pub const DEFAULT_NTP_PORT: u16 = 123;

/// The longest request that is read.
pub const MAX_REQUEST_LEN: usize = 65536;

/// Cookies handed out per exchange (RFC 8915 section 4.1.6 recommends 8).
pub const KE_COOKIE_COUNT: usize = 8;

/// One record: its type, whether a peer that does not know the type must fail,
/// and its body.
pub ghost struct RecordValue {
    pub critical: bool,
    pub record_type: u16,
    pub body: Seq<u8>,
}

/// The bytes of one record.
pub open spec fn record_bytes(record: RecordValue) -> Seq<u8> {
    be_bytes(
        (record.record_type % 0x8000 + if record.critical {
            0x8000int
        } else {
            0
        }) as nat,
        2,
    ) + be_bytes(record.body.len(), 2) + record.body
}

/// Whether a whole record stands at the front of `bytes`.
pub open spec fn has_record(bytes: Seq<u8>) -> bool {
    bytes.len() >= 4 && 4 + be_value(bytes.subrange(2, 4)) <= bytes.len()
}

/// The record at the front of `bytes`.
pub open spec fn first_record(bytes: Seq<u8>) -> RecordValue {
    let head = be_value(bytes.subrange(0, 2));
    RecordValue {
        critical: head >= 0x8000,
        record_type: (head % 0x8000) as u16,
        body: bytes.subrange(4, 4 + be_value(bytes.subrange(2, 4)) as int),
    }
}

/// What follows the record at the front of `bytes`.
pub open spec fn after_record(bytes: Seq<u8>) -> Seq<u8> {
    bytes.subrange(4 + be_value(bytes.subrange(2, 4)) as int, bytes.len() as int)
}

/// The records that `bytes` holds, as far as they are whole.
pub open spec fn records(bytes: Seq<u8>) -> Seq<RecordValue>
    decreases bytes.len(),
{
    if has_record(bytes) {
        seq![first_record(bytes)] + records(after_record(bytes))
    } else {
        Seq::empty()
    }
}

/// Whether nothing is left over once the whole records are taken off.
pub open spec fn is_whole(bytes: Seq<u8>) -> bool
    decreases bytes.len(),
{
    if has_record(bytes) {
        is_whole(after_record(bytes))
    } else {
        bytes.len() == 0
    }
}

/// Whether one of the records ends the message.
pub open spec fn ends_message(bytes: Seq<u8>) -> bool
    decreases bytes.len(),
{
    has_record(bytes) && (first_record(bytes).record_type == RECORD_END_OF_MESSAGE || ends_message(
        after_record(bytes),
    ))
}

/// Whether `body`, a list of two-byte numbers, holds `wanted`; an odd last byte
/// is ignored.
pub open spec fn offers(body: Seq<u8>, wanted: u16) -> bool {
    exists|i: int|
        0 <= i < body.len() / 2 && be_value(#[trigger] body.subrange(2 * i, 2 * i + 2)) == wanted
}

/// Whether the last record of type `kind` offers `wanted`; `so_far` where there
/// is none.
pub open spec fn last_offer(records: Seq<RecordValue>, kind: u16, wanted: u16, so_far: bool) -> bool
    decreases records.len(),
{
    if records.len() == 0 {
        so_far
    } else if records[0].record_type == kind {
        last_offer(records.drop_first(), kind, wanted, offers(records[0].body, wanted))
    } else {
        last_offer(records.drop_first(), kind, wanted, so_far)
    }
}

/// How far the reading of a request has come.
#[derive(Clone, Copy, Debug, PartialEq, Eq, Structural)]
pub enum KeProgress {
    /// Read on.
    More,
    /// The message is complete.
    Complete,
    /// The client sent more than is accepted.
    Oversized,
}

/// How far the reading of these bytes has come.
pub open spec fn progress_of(buf: Seq<u8>) -> KeProgress {
    if buf.len() > MAX_REQUEST_LEN {
        KeProgress::Oversized
    } else if ends_message(buf) {
        KeProgress::Complete
    } else {
        KeProgress::More
    }
}

/// Whether the bytes read so far are a whole request.
pub fn ke_progress(buf: &[u8]) -> (progress: KeProgress)
    ensures
        progress == progress_of(buf@),
{
    if buf.len() > MAX_REQUEST_LEN {
        return KeProgress::Oversized;
    }
    let end: usize = buf.len();
    let mut at: usize = 0;
    assert(buf@.subrange(0, end as int) =~= buf@);
    loop
        invariant
            at <= end <= MAX_REQUEST_LEN,
            end == buf@.len(),
            ends_message(buf@) == ends_message(buf@.subrange(at as int, end as int)),
        decreases end - at,
    {
        match record_at(buf, at) {
            None => {
                return KeProgress::More;
            },
            Some((kind, body)) => {
                if kind == RECORD_END_OF_MESSAGE {
                    return KeProgress::Complete;
                }
                at = at + 4 + body.len();
            },
        }
    }
}

/// The record that starts at `at`, if a whole one does.
fn record_at<'a>(buf: &'a [u8], at: usize) -> (record: Option<(u16, &'a [u8])>)
    requires
        at <= buf@.len(),
    ensures
        ({
            let rest = buf@.subrange(at as int, buf@.len() as int);
            match record {
                Some((kind, body)) => has_record(rest) && kind == first_record(rest).record_type
                    && body@ == first_record(rest).body && at + 4 + body@.len() <= buf@.len()
                    && after_record(rest) == buf@.subrange(
                    at + 4 + body@.len(),
                    buf@.len() as int,
                ),
                None => !has_record(rest),
            }
        }),
{
    let ghost rest = buf@.subrange(at as int, buf@.len() as int);
    let left: usize = buf.len() - at;
    if left < 4 {
        return None;
    }
    let head: u16 = read_u16(buf, at);
    let len: usize = read_u16(buf, at + 2) as usize;
    proof {
        assert(rest.subrange(0, 2) =~= buf@.subrange(at as int, at + 2));
        assert(rest.subrange(2, 4) =~= buf@.subrange(at + 2, at + 4));
    }
    if len > left - 4 {
        return None;
    }
    let body: &'a [u8] = slice_subrange(buf, at + 4, at + 4 + len);
    assert(body@ =~= first_record(rest).body);
    assert(after_record(rest) =~= buf@.subrange(at + 4 + body@.len(), buf@.len() as int));
    Some((head % 0x8000, body))
}

fn body_offers(body: &[u8], wanted: u16) -> (found: bool)
    ensures
        found == offers(body@, wanted),
{
    let mut i: usize = 0;
    while i < body.len() / 2
        invariant
            i <= body@.len() / 2,
            forall|j: int|
                0 <= j < i ==> be_value(#[trigger] body@.subrange(2 * j, 2 * j + 2)) != wanted,
        decreases body@.len() / 2 - i,
    {
        if read_u16(body, 2 * i) == wanted {
            assert(be_value(body@.subrange(2 * (i as int), 2 * (i as int) + 2)) == wanted);
            return true;
        }
        i = i + 1;
    }
    false
}

/// What a client's request comes to.
#[derive(Clone, Copy, Debug, PartialEq, Eq, Structural)]
pub enum Negotiation {
    /// It offers the protocol and the cipher this server speaks.
    Accepted,
    /// It offers something else: answer with [`ke_refusal`].
    Refused,
    /// It is not a sequence of whole records: do not answer.
    Malformed,
}

/// What a request comes to.
pub open spec fn outcome_of(request: Seq<u8>) -> Negotiation {
    if !is_whole(request) {
        Negotiation::Malformed
    } else if last_offer(records(request), RECORD_NEXT_PROTOCOL, NEXT_PROTO_NTPV4, false)
        && last_offer(records(request), RECORD_AEAD_ALGORITHM, AEAD_AES_SIV_CMAC_256, false) {
        Negotiation::Accepted
    } else {
        Negotiation::Refused
    }
}

/// Negotiate: NTPv4 over AES-SIV-CMAC-256 and nothing else. Where a record type
/// comes more than once, the last one counts.
pub fn negotiate(request: &[u8]) -> (outcome: Negotiation)
    ensures
        outcome == outcome_of(request@),
{
    let end: usize = request.len();
    let mut at: usize = 0;
    let mut proto_ok: bool = false;
    let mut aead_ok: bool = false;
    let ghost all = records(request@);
    assert(request@.subrange(0, end as int) =~= request@);
    while at < end
        invariant
            at <= end == request@.len(),
            is_whole(request@) == is_whole(request@.subrange(at as int, end as int)),
            ({
                let rest = records(request@.subrange(at as int, end as int));
                &&& last_offer(all, RECORD_NEXT_PROTOCOL, NEXT_PROTO_NTPV4, false) == last_offer(
                    rest,
                    RECORD_NEXT_PROTOCOL,
                    NEXT_PROTO_NTPV4,
                    proto_ok,
                )
                &&& last_offer(all, RECORD_AEAD_ALGORITHM, AEAD_AES_SIV_CMAC_256, false)
                    == last_offer(rest, RECORD_AEAD_ALGORITHM, AEAD_AES_SIV_CMAC_256, aead_ok)
            }),
        decreases end - at,
    {
        let ghost rest = request@.subrange(at as int, end as int);
        match record_at(request, at) {
            None => {
                return Negotiation::Malformed;
            },
            Some((kind, body)) => {
                proof {
                    let tail = records(after_record(rest));
                    assert(records(rest).drop_first() =~= tail);
                }
                if kind == RECORD_NEXT_PROTOCOL {
                    proto_ok = body_offers(body, NEXT_PROTO_NTPV4);
                } else if kind == RECORD_AEAD_ALGORITHM {
                    aead_ok = body_offers(body, AEAD_AES_SIV_CMAC_256);
                }
                at = at + 4 + body.len();
            },
        }
    }
    assert(request@.subrange(at as int, end as int) =~= Seq::empty());
    if proto_ok && aead_ok {
        Negotiation::Accepted
    } else {
        Negotiation::Refused
    }
}

/// Append one record.
pub fn write_record(out: &mut Vec<u8>, critical: bool, record_type: u16, body: &[u8])
    requires
        record_type < 0x8000,
        body@.len() <= 0xFFFF,
    ensures
        final(out)@ == old(out)@ + record_bytes(
            RecordValue { critical, record_type, body: body@ },
        ),
{
    let ghost start = out@;
    let head: u16 = if critical { record_type + 0x8000 } else { record_type };
    out.extend_from_slice(u16_bytes(head).as_slice());
    out.extend_from_slice(u16_bytes(body.len() as u16).as_slice());
    out.extend_from_slice(body);
    assert(out@ =~= start + record_bytes(RecordValue { critical, record_type, body: body@ }));
}

/// The bytes of several records, one after the other.
pub open spec fn message(records: Seq<RecordValue>) -> Seq<u8>
    decreases records.len(),
{
    if records.len() == 0 {
        Seq::empty()
    } else {
        message(records.drop_last()) + record_bytes(records.last())
    }
}

/// The record that ends a message.
pub open spec fn end_record() -> RecordValue {
    RecordValue { critical: true, record_type: RECORD_END_OF_MESSAGE, body: Seq::empty() }
}

/// The records of a refusal.
pub open spec fn refusal_records() -> Seq<RecordValue> {
    seq![
        RecordValue {
            critical: true,
            record_type: RECORD_ERROR,
            body: be_bytes(ERROR_BAD_REQUEST as nat, 2),
        },
        end_record(),
    ]
}

/// The cookie records of a reply.
pub open spec fn cookie_records(cookies: Seq<Vec<u8>>) -> Seq<RecordValue> {
    cookies.map_values(
        |c: Vec<u8>| RecordValue { critical: false, record_type: RECORD_NEW_COOKIE, body: c@ },
    )
}

/// The records of a reply up to its cookies: the protocol, the cipher, and the
/// NTP port where it is not the default.
pub open spec fn terms(ntp_port: u16) -> Seq<RecordValue> {
    let agreed = seq![
        RecordValue {
            critical: true,
            record_type: RECORD_NEXT_PROTOCOL,
            body: be_bytes(NEXT_PROTO_NTPV4 as nat, 2),
        },
        RecordValue {
            critical: true,
            record_type: RECORD_AEAD_ALGORITHM,
            body: be_bytes(AEAD_AES_SIV_CMAC_256 as nat, 2),
        },
    ];
    if ntp_port == DEFAULT_NTP_PORT {
        agreed
    } else {
        agreed.push(
            RecordValue {
                critical: false,
                record_type: RECORD_PORT_NEGOTIATION,
                body: be_bytes(ntp_port as nat, 2),
            },
        )
    }
}

/// The records of a whole reply.
pub open spec fn reply_records(ntp_port: u16, cookies: Seq<Vec<u8>>) -> Seq<RecordValue> {
    (terms(ntp_port) + cookie_records(cookies)).push(end_record())
}

proof fn lemma_message_push(records: Seq<RecordValue>, record: RecordValue)
    ensures
        message(records.push(record)) == message(records) + record_bytes(record),
{
    assert(records.push(record).drop_last() =~= records);
}

/// Append one record to a message under construction.
fn add_record(
    out: &mut Vec<u8>,
    critical: bool,
    record_type: u16,
    body: &[u8],
    Ghost(so_far): Ghost<Seq<RecordValue>>,
)
    requires
        record_type < 0x8000,
        body@.len() <= 0xFFFF,
        old(out)@ == message(so_far),
    ensures
        final(out)@ == message(
            so_far.push(RecordValue { critical, record_type, body: body@ }),
        ),
{
    write_record(out, critical, record_type, body);
    proof {
        lemma_message_push(so_far, RecordValue { critical, record_type, body: body@ });
    }
}

/// The answer to a request that cannot be served.
pub fn ke_refusal() -> (reply: Vec<u8>)
    ensures
        reply@ == message(refusal_records()),
{
    let mut out: Vec<u8> = Vec::new();
    let ghost none = Seq::<RecordValue>::empty();
    let code: [u8; 2] = u16_bytes(ERROR_BAD_REQUEST);
    let empty: Vec<u8> = Vec::new();
    assert(out@ =~= message(none));
    add_record(&mut out, true, RECORD_ERROR, code.as_slice(), Ghost(none));
    let ghost one = none.push(
        RecordValue { critical: true, record_type: RECORD_ERROR, body: code@ },
    );
    add_record(&mut out, true, RECORD_END_OF_MESSAGE, empty.as_slice(), Ghost(one));
    proof {
        assert(empty@ =~= Seq::empty());
        assert(one.push(end_record()) =~= refusal_records());
    }
    out
}

/// The answer to an accepted request: the terms, the cookies, the end. The NTP
/// port is told only where it is not the one clients assume.
pub fn ke_reply(ntp_port: u16, cookies: &Vec<Vec<u8>>) -> (reply: Vec<u8>)
    requires
        forall|i: int| 0 <= i < cookies@.len() ==> (#[trigger] cookies@[i])@.len() <= 0xFFFF,
    ensures
        reply@ == message(reply_records(ntp_port, cookies@)),
{
    let mut out: Vec<u8> = Vec::new();
    let ghost mut so_far = Seq::<RecordValue>::empty();
    assert(out@ =~= message(so_far));
    let proto: [u8; 2] = u16_bytes(NEXT_PROTO_NTPV4);
    add_record(&mut out, true, RECORD_NEXT_PROTOCOL, proto.as_slice(), Ghost(so_far));
    proof {
        so_far = so_far.push(
            RecordValue { critical: true, record_type: RECORD_NEXT_PROTOCOL, body: proto@ },
        );
    }
    let aead: [u8; 2] = u16_bytes(AEAD_AES_SIV_CMAC_256);
    add_record(&mut out, true, RECORD_AEAD_ALGORITHM, aead.as_slice(), Ghost(so_far));
    proof {
        so_far = so_far.push(
            RecordValue { critical: true, record_type: RECORD_AEAD_ALGORITHM, body: aead@ },
        );
    }
    if ntp_port != DEFAULT_NTP_PORT {
        let port: [u8; 2] = u16_bytes(ntp_port);
        add_record(&mut out, false, RECORD_PORT_NEGOTIATION, port.as_slice(), Ghost(so_far));
        proof {
            so_far = so_far.push(
                RecordValue { critical: false, record_type: RECORD_PORT_NEGOTIATION, body: port@ },
            );
        }
    }
    assert(so_far =~= terms(ntp_port));
    let mut i: usize = 0;
    assert(so_far =~= terms(ntp_port) + cookie_records(cookies@.take(0)));
    while i < cookies.len()
        invariant
            i <= cookies@.len(),
            so_far == terms(ntp_port) + cookie_records(cookies@.take(i as int)),
            out@ == message(so_far),
            forall|j: int| 0 <= j < cookies@.len() ==> (#[trigger] cookies@[j])@.len() <= 0xFFFF,
        decreases cookies@.len() - i,
    {
        let cookie: &Vec<u8> = &cookies[i];
        assert(cookies@[i as int]@.len() <= 0xFFFF);
        add_record(&mut out, false, RECORD_NEW_COOKIE, cookie.as_slice(), Ghost(so_far));
        proof {
            so_far = so_far.push(
                RecordValue { critical: false, record_type: RECORD_NEW_COOKIE, body: cookie@ },
            );
            assert(so_far =~= terms(ntp_port) + cookie_records(cookies@.take(i + 1)));
        }
        i = i + 1;
    }
    let empty: Vec<u8> = Vec::new();
    add_record(&mut out, true, RECORD_END_OF_MESSAGE, empty.as_slice(), Ghost(so_far));
    proof {
        assert(empty@ =~= Seq::empty());
        assert(cookies@.take(cookies@.len() as int) =~= cookies@);
    }
    out
}

proof fn lemma_record_first(record: RecordValue, tail: Seq<u8>)
    requires
        record.record_type < 0x8000,
        record.body.len() <= 0xFFFF,
    ensures
        has_record(record_bytes(record) + tail),
        first_record(record_bytes(record) + tail) == record,
        after_record(record_bytes(record) + tail) == tail,
{
    let bytes = record_bytes(record) + tail;
    let head: nat = (record.record_type % 0x8000 + if record.critical {
        0x8000int
    } else {
        0
    }) as nat;
    reveal_with_fuel(byte_range, 3);
    lemma_be_bytes_len(head, 2);
    lemma_be_bytes_len(record.body.len(), 2);
    be_decode_of_encode(head, 2);
    be_decode_of_encode(record.body.len(), 2);
    assert(bytes.subrange(0, 2) =~= be_bytes(head, 2));
    assert(bytes.subrange(2, 4) =~= be_bytes(record.body.len(), 2));
    assert(bytes.subrange(4, 4 + record.body.len() as int) =~= record.body);
    assert(after_record(bytes) =~= tail);
}

/// A message that was written reads back: the same records, nothing left over.
pub proof fn message_reads_back(sent: Seq<RecordValue>)
    requires
        forall|i: int|
            0 <= i < sent.len() ==> (#[trigger] sent[i]).record_type < 0x8000
                && sent[i].body.len() <= 0xFFFF,
    ensures
        records(message(sent)) == sent,
        is_whole(message(sent)),
{
    assert(message(sent) =~= message(sent) + Seq::<u8>::empty());
    lemma_message_then(sent, Seq::empty());
    assert(records(Seq::empty()) =~= Seq::empty());
    assert(sent + Seq::<RecordValue>::empty() =~= sent);
}

proof fn lemma_message_then(sent: Seq<RecordValue>, tail: Seq<u8>)
    requires
        forall|i: int|
            0 <= i < sent.len() ==> (#[trigger] sent[i]).record_type < 0x8000
                && sent[i].body.len() <= 0xFFFF,
    ensures
        records(message(sent) + tail) == sent + records(tail),
        is_whole(message(sent) + tail) == is_whole(tail),
    decreases sent.len(),
{
    if sent.len() == 0 {
        assert(message(sent) + tail =~= tail);
        assert(sent + records(tail) =~= records(tail));
    } else {
        let last = sent.last();
        assert(last == sent[sent.len() - 1]);
        let shorter = sent.drop_last();
        let rest = record_bytes(last) + tail;
        assert forall|i: int| 0 <= i < shorter.len() implies (#[trigger] shorter[i]).record_type
            < 0x8000 && shorter[i].body.len() <= 0xFFFF by {
            assert(shorter[i] == sent[i]);
        }
        lemma_message_then(shorter, rest);
        assert(message(sent) + tail =~= message(shorter) + rest);
        lemma_record_first(last, tail);
        assert(sent + records(tail) =~= shorter + records(rest));
    }
}

/// The first record of a message stands at its front, and the others behind it.
pub(crate) proof fn lemma_message_front(sent: Seq<RecordValue>, tail: Seq<u8>)
    requires
        sent.len() > 0,
        forall|i: int|
            0 <= i < sent.len() ==> (#[trigger] sent[i]).record_type < 0x8000
                && sent[i].body.len() <= 0xFFFF,
    ensures
        has_record(message(sent) + tail),
        first_record(message(sent) + tail) == sent[0],
        after_record(message(sent) + tail) == message(sent.drop_first()) + tail,
    decreases sent.len(),
{
    let shorter = sent.drop_last();
    let last = sent.last();
    assert(last == sent[sent.len() - 1]);
    let rest = record_bytes(last) + tail;
    assert(message(sent) + tail =~= message(shorter) + rest);
    if shorter.len() == 0 {
        assert(message(shorter) + rest =~= record_bytes(last) + tail);
        lemma_record_first(last, tail);
        assert(sent.drop_first() =~= Seq::empty());
        assert(message(sent.drop_first()) + tail =~= tail);
    } else {
        assert forall|i: int| 0 <= i < shorter.len() implies (#[trigger] shorter[i]).record_type
            < 0x8000 && shorter[i].body.len() <= 0xFFFF by {
            assert(shorter[i] == sent[i]);
        }
        lemma_message_front(shorter, rest);
        assert(sent.drop_first().drop_last() =~= shorter.drop_first());
        assert(message(sent.drop_first()) + tail =~= message(shorter.drop_first()) + rest);
    }
}

/// Which of the two keys of a session is exported.
#[derive(Clone, Copy, Debug, PartialEq, Eq, Structural)]
pub enum Direction {
    ClientToServer,
    ServerToClient,
}

/// The label under which session keys are exported from the handshake.
pub const EXPORTER_LABEL: &'static str = "EXPORTER-network-time-security";

/// The context of a direction.
pub open spec fn context_of(direction: Direction) -> Seq<u8> {
    be_bytes(NEXT_PROTO_NTPV4 as nat, 2) + be_bytes(AEAD_AES_SIV_CMAC_256 as nat, 2) + seq![
        match direction {
            Direction::ClientToServer => 0u8,
            Direction::ServerToClient => 1u8,
        },
    ]
}

/// The context under which a session key is exported: the protocol, the cipher
/// and the direction.
pub fn exporter_context(direction: Direction) -> (context: [u8; 5])
    ensures
        context@ == context_of(direction),
{
    let proto: [u8; 2] = u16_bytes(NEXT_PROTO_NTPV4);
    let cipher: [u8; 2] = u16_bytes(AEAD_AES_SIV_CMAC_256);
    let last: u8 = match direction {
        Direction::ClientToServer => 0,
        Direction::ServerToClient => 1,
    };
    let context: [u8; 5] = [proto[0], proto[1], cipher[0], cipher[1], last];
    proof {
        crate::wire::lemma_be_bytes_len(NEXT_PROTO_NTPV4 as nat, 2);
        crate::wire::lemma_be_bytes_len(AEAD_AES_SIV_CMAC_256 as nat, 2);
        assert(context@ =~= proto@ + cipher@ + seq![last]);
    }
    context
}

} // verus!
