//! What authentication is for: what a client frames a server reads, what the server
//! seals the client finds, and neither takes anything else for it.

use vstd::prelude::*;

use crate::ke::{
    context_of, ends_message, last_offer, message, message_reads_back, offers, outcome_of,
    progress_of, records, refusal_records, reply_records, terms, Direction, KeProgress,
    Negotiation, RecordValue,
};
use crate::ntp::NtpPacket;
use crate::nts_fields::{
    authenticator_body, authenticator_reads_back, body_ciphertext, body_nonce, field_bytes,
    nts_scan, padded,
};
use crate::nts_session::{answers, banked, fits_a_field, placeholders_wanted};
use crate::reply::{echoed, nts_reply_reads_back, reply_cookies};
use crate::wire::{be_bytes, be_value};
use crate::wire_laws::two_bytes;

verus! {

proof fn lemma_two(v: nat)
    requires
        v < 0x1_0000,
    ensures
        be_bytes(v, 2) == seq![(v / 256) as u8, (v % 256) as u8],
        be_value(be_bytes(v, 2)) == v,
{
    reveal_with_fuel(be_bytes, 3);
    reveal_with_fuel(crate::wire::byte_range, 3);
    crate::wire::be_decode_of_encode(v, 2);
    assert(be_bytes(v, 2) =~= seq![(v / 256) as u8, (v % 256) as u8]);
}

/// A field on the wire: two bytes of type, two of length, with the four of them counted
/// in, and the body. An identifier is type 0x0104, a cookie 0x0204, a placeholder
/// 0x0304 and an authenticator 0x0404.
pub proof fn a_field_on_the_wire(body: Seq<u8>)
    requires
        body.len() <= 0xFFFB,
    ensures
        ({
            let len = body.len() + 4;
            let rest = seq![(len / 256) as u8, (len % 256) as u8] + body;
            &&& field_bytes(crate::nts_fields::UNIQUE_IDENTIFIER, body) == seq![1u8, 4u8] + rest
            &&& field_bytes(crate::nts_fields::NTS_COOKIE, body) == seq![2u8, 4u8] + rest
            &&& field_bytes(crate::nts_fields::NTS_COOKIE_PLACEHOLDER, body) == seq![3u8, 4u8]
                + rest
            &&& field_bytes(crate::nts_fields::NTS_AUTHENTICATOR, body) == seq![4u8, 4u8] + rest
        }),
{
    let len = (body.len() + 4) as nat;
    lemma_two(len);
    lemma_two(0x0104);
    lemma_two(0x0204);
    lemma_two(0x0304);
    lemma_two(0x0404);
    let rest = seq![(len / 256) as u8, (len % 256) as u8] + body;
    assert(field_bytes(crate::nts_fields::UNIQUE_IDENTIFIER, body) =~= seq![1u8, 4u8] + rest);
    assert(field_bytes(crate::nts_fields::NTS_COOKIE, body) =~= seq![2u8, 4u8] + rest);
    assert(field_bytes(crate::nts_fields::NTS_COOKIE_PLACEHOLDER, body) =~= seq![3u8, 4u8] + rest);
    assert(field_bytes(crate::nts_fields::NTS_AUTHENTICATOR, body) =~= seq![4u8, 4u8] + rest);
}

/// A protected answer is known for one: a client that sent an identifier of 32 bytes
/// finds it in the answer, together with the very nonce and ciphertext that the server
/// sealed, over everything before them; and an answer to any other identifier is none.
pub proof fn a_protected_answer_is_known(
    header: NtpPacket,
    unique_id: Seq<u8>,
    other: Seq<u8>,
    nonce: Seq<u8>,
    ciphertext: Seq<u8>,
)
    requires
        unique_id.len() == 32,
        nonce.len() == 16,
        ciphertext.len() <= 0xFFFF,
        8 + 16 + padded(ciphertext.len()) <= 0xFFFF,
        other != unique_id,
    ensures
        ({
            let head = header.wire() + field_bytes(
                crate::nts_fields::UNIQUE_IDENTIFIER,
                echoed(unique_id),
            );
            let packet = head + field_bytes(
                crate::nts_fields::NTS_AUTHENTICATOR,
                authenticator_body(nonce, ciphertext),
            );
            &&& answers(packet, unique_id)
            &&& !answers(packet, other)
            &&& body_nonce(nts_scan(packet).authenticator->Some_0.0) == nonce
            &&& body_ciphertext(nts_scan(packet).authenticator->Some_0.0) == ciphertext
            &&& packet.subrange(0, nts_scan(packet).authenticator->Some_0.1) == head
        }),
{
    nts_reply_reads_back(header, unique_id, nonce, ciphertext);
    authenticator_reads_back(nonce, ciphertext);
    assert(echoed(unique_id) =~= unique_id);
    let head = header.wire() + field_bytes(
        crate::nts_fields::UNIQUE_IDENTIFIER,
        echoed(unique_id),
    );
    let packet = head + field_bytes(
        crate::nts_fields::NTS_AUTHENTICATOR,
        authenticator_body(nonce, ciphertext),
    );
    assert(packet.subrange(0, head.len() as int) =~= head);
}

/// Cookies do not run out while a server answers: a client that holds eight or fewer,
/// spends one and gets back as many as it asked for holds eight again, or one more
/// where the server gives one for the one that was spent beside those asked for; and it
/// never asks for more than seven, nor for any where it holds eight.
pub proof fn an_exchange_refills_the_cookies(held: Seq<Seq<u8>>, new: Seq<Seq<u8>>)
    requires
        1 <= held.len() <= 8,
        new.len() == reply_cookies(placeholders_wanted((held.len() - 1) as nat)),
    ensures
        placeholders_wanted((held.len() - 1) as nat) <= 7,
        held.len() >= 2 ==> placeholders_wanted((held.len() - 1) as nat) == 9 - held.len(),
        new.len() <= 8,
        banked(held.drop_first(), new).len() >= 8,
        banked(held.drop_first(), new).len() <= 9,
        forall|n: nat| n >= 8 ==> #[trigger] placeholders_wanted(n) == 0,
{
}

/// What is banked is kept in order behind what was there, as far as there is room for
/// sixteen.
pub proof fn banking_keeps_the_order(held: Seq<Seq<u8>>, new: Seq<Seq<u8>>)
    requires
        held.len() <= 16,
    ensures
        banked(held, new).len() == if held.len() + new.len() <= 16 {
            held.len() + new.len()
        } else {
            16
        },
        forall|i: int| 0 <= i < held.len() ==> banked(held, new)[i] == held[i],
        forall|i: int|
            held.len() <= i < banked(held, new).len() ==> banked(held, new)[i] == new[i
                - held.len()],
{
}

/// How many cookies an answer carries: one for the one that was spent and one for each
/// that was asked for, and never more than eight.
pub proof fn an_answer_carries_what_was_asked_for(placeholders: nat)
    ensures
        placeholders <= 7 ==> reply_cookies(placeholders) == placeholders + 1,
        placeholders > 7 ==> reply_cookies(placeholders) == 8,
{
}

proof fn lemma_last_offer(all: Seq<RecordValue>, kind: u16, wanted: u16, at: int, so_far: bool)
    requires
        0 <= at < all.len(),
        all[at].record_type == kind,
        forall|i: int| at < i < all.len() ==> (#[trigger] all[i]).record_type != kind,
    ensures
        last_offer(all, kind, wanted, so_far) == offers(all[at].body, wanted),
    decreases all.len(),
{
    let rest = all.drop_first();
    assert forall|i: int| 0 <= i < rest.len() implies (#[trigger] rest[i]) == all[i + 1] by {}
    if at == 0 {
        lemma_no_offer(rest, kind, wanted, offers(all[0].body, wanted));
    } else {
        let next = if all[0].record_type == kind {
            offers(all[0].body, wanted)
        } else {
            so_far
        };
        lemma_last_offer(rest, kind, wanted, at - 1, next);
    }
}

proof fn lemma_no_offer(all: Seq<RecordValue>, kind: u16, wanted: u16, so_far: bool)
    requires
        forall|i: int| 0 <= i < all.len() ==> (#[trigger] all[i]).record_type != kind,
    ensures
        last_offer(all, kind, wanted, so_far) == so_far,
    decreases all.len(),
{
    if all.len() > 0 {
        assert(all[0].record_type != kind);
        let rest = all.drop_first();
        assert forall|i: int| 0 <= i < rest.len() implies (#[trigger] rest[i]).record_type
            != kind by {
            assert(rest[i] == all[i + 1]);
        }
        lemma_no_offer(rest, kind, wanted, so_far);
    }
}

/// What is agreed on: a client's message of whole records is accepted exactly where its
/// last list of protocols, the record of type 1, holds number 0, which is NTP, and its
/// last list of ciphers, the record of type 4, holds number 15. `protocols` and
/// `ciphers` are where those two stand.
pub proof fn ntp_and_its_cipher_are_agreed_on(
    sent: Seq<RecordValue>,
    protocols: int,
    ciphers: int,
)
    requires
        forall|i: int|
            0 <= i < sent.len() ==> (#[trigger] sent[i]).record_type < 0x8000
                && sent[i].body.len() <= 0xFFFF,
        0 <= protocols < sent.len(),
        0 <= ciphers < sent.len(),
        sent[protocols].record_type == 1,
        sent[ciphers].record_type == 4,
        forall|i: int| protocols < i < sent.len() ==> (#[trigger] sent[i]).record_type != 1,
        forall|i: int| ciphers < i < sent.len() ==> (#[trigger] sent[i]).record_type != 4,
    ensures
        outcome_of(message(sent)) == if offers(sent[protocols].body, 0) && offers(
            sent[ciphers].body,
            15,
        ) {
            Negotiation::Accepted
        } else {
            Negotiation::Refused
        },
{
    message_reads_back(sent);
    lemma_last_offer(sent, 1, 0, protocols, false);
    lemma_last_offer(sent, 4, 15, ciphers, false);
}

/// A client that says nothing of the protocol, or nothing of the cipher, is refused.
pub proof fn what_is_not_offered_is_refused(sent: Seq<RecordValue>)
    requires
        forall|i: int|
            0 <= i < sent.len() ==> (#[trigger] sent[i]).record_type < 0x8000
                && sent[i].body.len() <= 0xFFFF,
        (forall|i: int| 0 <= i < sent.len() ==> (#[trigger] sent[i]).record_type != 1) || (forall|
            i: int,
        |
            0 <= i < sent.len() ==> (#[trigger] sent[i]).record_type != 4),
    ensures
        outcome_of(message(sent)) == Negotiation::Refused,
{
    message_reads_back(sent);
    if forall|i: int| 0 <= i < sent.len() ==> (#[trigger] sent[i]).record_type != 1 {
        lemma_no_offer(sent, 1, 0, false);
    } else {
        lemma_no_offer(sent, 4, 15, false);
    }
}

/// A list of two-byte numbers holds those that stand in it, each at an even place.
pub proof fn a_list_holds_its_numbers(body: Seq<u8>, i: int)
    requires
        0 <= i,
        2 * i + 2 <= body.len(),
    ensures
        offers(body, (body[2 * i] * 256 + body[2 * i + 1]) as u16),
{
    let pair = body.subrange(2 * i, 2 * i + 2);
    two_bytes(pair);
    assert(pair[0] == body[2 * i] && pair[1] == body[2 * i + 1]);
    assert(0 <= i < body.len() / 2);
}

proof fn lemma_ends(sent: Seq<RecordValue>, tail: Seq<u8>, at: int)
    requires
        forall|i: int|
            0 <= i < sent.len() ==> (#[trigger] sent[i]).record_type < 0x8000
                && sent[i].body.len() <= 0xFFFF,
        0 <= at < sent.len(),
        sent[at].record_type == 0,
    ensures
        ends_message(message(sent) + tail),
    decreases at,
{
    crate::ke::lemma_message_front(sent, tail);
    if at > 0 {
        let rest = sent.drop_first();
        assert forall|i: int| 0 <= i < rest.len() implies (#[trigger] rest[i]).record_type < 0x8000
            && rest[i].body.len() <= 0xFFFF by {
            assert(rest[i] == sent[i + 1]);
        }
        assert(rest[at - 1] == sent[at]);
        lemma_ends(rest, tail, at - 1);
    }
}

/// A request is read to its end, and no further: bytes that hold a record of type 0 are
/// complete, whatever comes behind it, up to 65536 of them in all.
pub proof fn a_message_ends_where_it_says(sent: Seq<RecordValue>, tail: Seq<u8>, at: int)
    requires
        forall|i: int|
            0 <= i < sent.len() ==> (#[trigger] sent[i]).record_type < 0x8000
                && sent[i].body.len() <= 0xFFFF,
        0 <= at < sent.len(),
        sent[at].record_type == 0,
    ensures
        (message(sent) + tail).len() <= 65536 ==> progress_of(message(sent) + tail)
            == KeProgress::Complete,
        (message(sent) + tail).len() > 65536 ==> progress_of(message(sent) + tail)
            == KeProgress::Oversized,
{
    lemma_ends(sent, tail, at);
}

/// What a server answers: the protocol and the cipher that it takes, each in a record
/// that must be understood, the port where it is not 123, then every cookie, in order,
/// as it was minted, and the end.
pub proof fn a_reply_tells_terms_and_cookies(port: u16, cookies: Seq<Vec<u8>>)
    requires
        forall|i: int| 0 <= i < cookies.len() ==> (#[trigger] cookies[i])@.len() <= 0xFFFF,
    ensures
        ({
            let sent = records(message(reply_records(port, cookies)));
            let first = if port == 123 {
                2int
            } else {
                3
            };
            &&& sent.len() == first + cookies.len() + 1
            &&& sent[0].record_type == 1 && sent[0].critical && sent[0].body == seq![0u8, 0u8]
            &&& sent[1].record_type == 4 && sent[1].critical && sent[1].body == seq![0u8, 15u8]
            &&& port != 123 ==> sent[2].record_type == 7 && sent[2].body == seq![
                (port / 256) as u8,
                (port % 256) as u8,
            ]
            &&& forall|i: int|
                0 <= i < cookies.len() ==> (#[trigger] sent[first + i]).record_type == 5
                    && sent[first + i].body == cookies[i]@
            &&& sent.last().record_type == 0 && sent.last().body.len() == 0
        }),
{
    let sent = reply_records(port, cookies);
    lemma_two(0);
    lemma_two(15);
    lemma_two(port as nat);
    assert forall|i: int| 0 <= i < sent.len() implies (#[trigger] sent[i]).record_type < 0x8000
        && sent[i].body.len() <= 0xFFFF by {
        let first = if port == 123 {
            2int
        } else {
            3
        };
        if first <= i < first + cookies.len() {
            assert(cookies[i - first]@.len() <= 0xFFFF);
        }
    }
    message_reads_back(sent);
}

/// A refusal is an error that must be understood, with the code for a bad request, and
/// no client takes it for an agreement.
pub proof fn a_refusal_says_so()
    ensures
        ({
            let sent = records(message(refusal_records()));
            &&& sent.len() == 2
            &&& sent[0].record_type == 2 && sent[0].critical && sent[0].body == seq![0u8, 1u8]
            &&& sent[1].record_type == 0
        }),
        outcome_of(message(refusal_records())) == Negotiation::Refused,
{
    let sent = refusal_records();
    lemma_two(1);
    assert forall|i: int| 0 <= i < sent.len() implies (#[trigger] sent[i]).record_type < 0x8000
        && sent[i].body.len() <= 0xFFFF by {}
    message_reads_back(sent);
    what_is_not_offered_is_refused(sent);
}

/// The two directions are exported apart: protocol 0 and cipher 15 for both, and then
/// 0 toward the server and 1 toward the client.
pub proof fn the_directions_are_apart()
    ensures
        context_of(Direction::ClientToServer) == seq![0u8, 0u8, 0u8, 15u8, 0u8],
        context_of(Direction::ServerToClient) == seq![0u8, 0u8, 0u8, 15u8, 1u8],
{
    lemma_two(0);
    lemma_two(15);
    assert(context_of(Direction::ClientToServer) =~= seq![0u8, 0u8, 0u8, 15u8, 0u8]);
    assert(context_of(Direction::ServerToClient) =~= seq![0u8, 0u8, 0u8, 15u8, 1u8]);
}

/// What fits a field: twelve bytes at least, a multiple of four, and short enough to be
/// counted.
pub proof fn what_fits_a_field(cookie: Seq<u8>)
    ensures
        fits_a_field(cookie) <==> 12 <= cookie.len() && cookie.len() + 4 <= 0xFFFF && cookie.len()
            % 4 == 0,
{
}

/// What is padded is filled up to a multiple of four bytes, and no further.
pub proof fn padding_fills_a_word(n: nat)
    ensures
        padded(n) % 4 == 0,
        n <= padded(n) < n + 4,
{
}

/// The protocol and the cipher must be understood by the client; a port of its own is told
/// only where it is not the usual one, and a client that does not know of it may pass it
/// over.
pub proof fn another_port_is_told(port: u16)
    ensures
        port == 123 <==> terms(port).len() == 2,
        port != 123 <==> terms(port).len() == 3,
        terms(port)[0].critical && terms(port)[0].record_type == 1,
        terms(port)[1].critical && terms(port)[1].record_type == 4,
        port != 123 ==> !terms(port)[2].critical && terms(port)[2].record_type == 7 && be_value(
            terms(port)[2].body,
        ) == port,
{
    lemma_two(port as nat);
}

} // verus!
