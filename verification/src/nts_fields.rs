//! The NTS extension fields of an NTP packet (RFC 8915 section 5): finding them
//! in a request, and writing them into a reply.

use vstd::prelude::*;
use vstd::slice::slice_subrange;

use crate::ntp::{claimed_len, starts_with_field, HEADER_LEN};
use crate::wire::{
    be_bytes, be_decode_of_encode, be_encode_of_decode, be_value, byte_range, lemma_be_bytes_len,
    read_u16, u16_bytes,
};

verus! {

/// The field a client puts a fresh random identifier in, echoed by the reply.
pub const UNIQUE_IDENTIFIER: u16 = 0x0104;

/// The field that carries one cookie.
pub const NTS_COOKIE: u16 = 0x0204;

/// The field that asks for one more cookie than the one being spent.
pub const NTS_COOKIE_PLACEHOLDER: u16 = 0x0304;

/// The field that authenticates everything before it.
pub const NTS_AUTHENTICATOR: u16 = 0x0404;

/// How much of a client's unique identifier is echoed.
pub const UNIQUE_ID_LEN: usize = 32;

/// The nonce of an authenticator field that this server writes.
pub const NONCE_LEN: usize = 16;

/// What a request's extension fields say about NTS, up to and with the
/// authenticator.
pub ghost struct NtsScan {
    /// The body of the last cookie field.
    pub cookie: Option<Seq<u8>>,
    /// The body of the last unique identifier field.
    pub unique_id: Option<Seq<u8>>,
    pub placeholders: nat,
    /// The body of the first authenticator field, and where the field starts.
    pub authenticator: Option<(Seq<u8>, int)>,
}

/// Walk the fields of `rest`, which starts at `at`, adding to what was `found`;
/// the walk ends with the first authenticator or with the last field.
pub open spec fn scan_from(rest: Seq<u8>, at: int, found: NtsScan) -> NtsScan
    decreases rest.len(),
{
    if !starts_with_field(rest) {
        found
    } else {
        let len = claimed_len(rest) as int;
        let kind = be_value(rest.subrange(0, 2));
        let body = rest.subrange(4, len);
        let tail = rest.subrange(len, rest.len() as int);
        if kind == NTS_AUTHENTICATOR {
            NtsScan { authenticator: Some((body, at)), ..found }
        } else if kind == NTS_COOKIE {
            scan_from(tail, at + len, NtsScan { cookie: Some(body), ..found })
        } else if kind == UNIQUE_IDENTIFIER {
            scan_from(tail, at + len, NtsScan { unique_id: Some(body), ..found })
        } else if kind == NTS_COOKIE_PLACEHOLDER {
            scan_from(tail, at + len, NtsScan { placeholders: found.placeholders + 1, ..found })
        } else {
            scan_from(tail, at + len, found)
        }
    }
}

/// What the extension fields of a whole packet say about NTS.
pub open spec fn nts_scan(packet: Seq<u8>) -> NtsScan {
    let nothing = NtsScan {
        cookie: None,
        unique_id: None,
        placeholders: 0,
        authenticator: None,
    };
    if packet.len() < HEADER_LEN {
        nothing
    } else {
        scan_from(
            packet.subrange(HEADER_LEN as int, packet.len() as int),
            HEADER_LEN as int,
            nothing,
        )
    }
}

/// An extension field and where in the packet it starts.
#[derive(Clone, Copy, Debug, PartialEq, Eq)]
pub struct Field<'a> {
    pub body: &'a [u8],
    pub offset: usize,
}

/// The NTS fields of a packet.
#[derive(Clone, Copy, Debug, PartialEq, Eq)]
pub struct NtsFields<'a> {
    pub cookie: Option<&'a [u8]>,
    pub unique_id: Option<&'a [u8]>,
    pub placeholders: usize,
    pub authenticator: Option<Field<'a>>,
}

impl<'a> View for NtsFields<'a> {
    type V = NtsScan;

    open spec fn view(&self) -> NtsScan {
        NtsScan {
            cookie: match self.cookie {
                Some(c) => Some(c@),
                None => None,
            },
            unique_id: match self.unique_id {
                Some(u) => Some(u@),
                None => None,
            },
            placeholders: self.placeholders as nat,
            authenticator: match self.authenticator {
                Some(f) => Some((f.body@, f.offset as int)),
                None => None,
            },
        }
    }
}

/// Find the NTS fields of a packet in one walk over its extension fields.
pub fn nts_fields<'a>(packet: &'a [u8]) -> (fields: NtsFields<'a>)
    ensures
        fields@ == nts_scan(packet@),
        fields.authenticator is Some ==> fields.authenticator->Some_0.offset < packet@.len(),
        fields.unique_id is Some ==> fields.unique_id->Some_0@.len() >= 12
            && fields.unique_id->Some_0@.len() % 4 == 0,
{
    let mut found: NtsFields<'a> = NtsFields {
        cookie: None,
        unique_id: None,
        placeholders: 0,
        authenticator: None,
    };
    if packet.len() < HEADER_LEN {
        return found;
    }
    let end: usize = packet.len();
    let mut at: usize = HEADER_LEN;
    let ghost whole = nts_scan(packet@);
    while at < end
        invariant_except_break
            found.authenticator is None,
            whole == scan_from(packet@.subrange(at as int, end as int), at as int, found@),
        invariant
            HEADER_LEN <= at <= end,
            end == packet@.len(),
            found.placeholders <= at,
            found.authenticator is Some ==> found.authenticator->Some_0.offset < end,
            found.unique_id is Some ==> found.unique_id->Some_0@.len() >= 12
                && found.unique_id->Some_0@.len() % 4 == 0,
        ensures
            whole == found@,
        decreases end - at,
    {
        let ghost rest = packet@.subrange(at as int, end as int);
        let left: usize = end - at;
        if left < 4 {
            break;
        }
        let kind: u16 = read_u16(packet, at);
        let len: usize = read_u16(packet, at + 2) as usize;
        proof {
            assert(rest.subrange(0, 2) =~= packet@.subrange(at as int, at + 2));
            assert(rest.subrange(2, 4) =~= packet@.subrange(at + 2, at + 4));
        }
        if len < 16 || len % 4 != 0 || len > left {
            break;
        }
        let body: &'a [u8] = slice_subrange(packet, at + 4, at + len);
        proof {
            assert(rest.subrange(4, len as int) =~= body@);
            assert(rest.subrange(len as int, rest.len() as int) =~= packet@.subrange(
                at + len,
                end as int,
            ));
        }
        if kind == NTS_AUTHENTICATOR {
            found.authenticator = Some(Field { body, offset: at });
            break;
        } else if kind == NTS_COOKIE {
            found.cookie = Some(body);
        } else if kind == UNIQUE_IDENTIFIER {
            found.unique_id = Some(body);
        } else if kind == NTS_COOKIE_PLACEHOLDER {
            found.placeholders = found.placeholders + 1;
        }
        at = at + len;
    }
    found
}

/// A number rounded up to a multiple of four.
pub open spec fn padded(n: nat) -> nat {
    ((n + 3) / 4 * 4) as nat
}

/// The parts of an authenticator field: what to open, and over which bytes.
#[derive(Clone, Copy, Debug, PartialEq, Eq)]
pub struct Authenticator<'a> {
    pub nonce: &'a [u8],
    pub ciphertext: &'a [u8],
    /// The packet up to the field: what the authenticator vouches for.
    pub associated: &'a [u8],
}

/// Whether an authenticator body is well formed: two lengths, a nonce that is
/// not empty, padding, and a ciphertext that fits.
pub open spec fn authenticator_fits(body: Seq<u8>) -> bool {
    &&& body.len() >= 4
    &&& be_value(body.subrange(0, 2)) > 0
    &&& 4 + padded(be_value(body.subrange(0, 2))) + be_value(body.subrange(2, 4)) <= body.len()
}

/// The nonce of a well-formed authenticator body.
pub open spec fn body_nonce(body: Seq<u8>) -> Seq<u8> {
    body.subrange(4, 4 + be_value(body.subrange(0, 2)) as int)
}

/// The ciphertext of a well-formed authenticator body.
pub open spec fn body_ciphertext(body: Seq<u8>) -> Seq<u8> {
    let start = 4 + padded(be_value(body.subrange(0, 2)));
    body.subrange(start as int, start + be_value(body.subrange(2, 4)) as int)
}

/// Take a packet's authenticator field apart, for the cipher to verify.
pub fn client_authenticator<'a>(packet: &'a [u8], field: Field<'a>) -> (parts: Option<
    Authenticator<'a>,
>)
    ensures
        match parts {
            Some(a) => authenticator_fits(field.body@) && field.offset <= packet@.len()
                && a.nonce@ == body_nonce(field.body@) && a.ciphertext@ == body_ciphertext(
                field.body@,
            ) && a.associated@ == packet@.subrange(0, field.offset as int),
            None => !authenticator_fits(field.body@) || field.offset > packet@.len(),
        },
{
    let body: &'a [u8] = field.body;
    if body.len() < 4 || field.offset > packet.len() {
        return None;
    }
    proof {
        be_encode_of_decode(body@.subrange(0, 2));
        be_encode_of_decode(body@.subrange(2, 4));
        reveal_with_fuel(byte_range, 3);
    }
    let nonce_len: usize = read_u16(body, 0) as usize;
    let ct_len: usize = read_u16(body, 2) as usize;
    let ct_start: usize = 4 + (nonce_len + 3) / 4 * 4;
    let ct_end: usize = ct_start + ct_len;
    if nonce_len == 0 || ct_end > body.len() {
        return None;
    }
    Some(
        Authenticator {
            nonce: slice_subrange(body, 4, 4 + nonce_len),
            ciphertext: slice_subrange(body, ct_start, ct_end),
            associated: slice_subrange(packet, 0, field.offset),
        },
    )
}

/// The bytes of one extension field.
pub open spec fn field_bytes(kind: u16, body: Seq<u8>) -> Seq<u8> {
    be_bytes(kind as nat, 2) + be_bytes(body.len() + 4, 2) + body
}

/// `count` zero bytes.
pub open spec fn zeros(count: nat) -> Seq<u8> {
    Seq::new(count, |i: int| 0u8)
}

/// The body of an authenticator field.
pub open spec fn authenticator_body(nonce: Seq<u8>, ciphertext: Seq<u8>) -> Seq<u8> {
    be_bytes(nonce.len(), 2) + be_bytes(ciphertext.len(), 2) + nonce + zeros(
        (padded(nonce.len()) - nonce.len()) as nat,
    ) + ciphertext + zeros((padded(ciphertext.len()) - ciphertext.len()) as nat)
}

fn push_all(out: &mut Vec<u8>, bytes: &[u8])
    ensures
        final(out)@ == old(out)@ + bytes@,
{
    out.extend_from_slice(bytes);
}

fn push_zeros(out: &mut Vec<u8>, count: usize)
    ensures
        final(out)@ == old(out)@ + zeros(count as nat),
{
    let ghost start = out@;
    let mut i: usize = 0;
    assert(out@ =~= start + zeros(0));
    while i < count
        invariant
            i <= count,
            out@ == start + zeros(i as nat),
        decreases count - i,
    {
        out.push(0);
        i = i + 1;
        assert(out@ =~= start + zeros(i as nat));
    }
}

/// Append one extension field. Its body must be one that a reader accepts: at
/// least twelve bytes, a multiple of four.
pub fn write_field(out: &mut Vec<u8>, kind: u16, body: &[u8])
    requires
        body@.len() >= 12,
        body@.len() % 4 == 0,
        body@.len() + 4 <= 0xFFFF,
    ensures
        final(out)@ == old(out)@ + field_bytes(kind, body@),
{
    let ghost start = out@;
    push_all(out, &u16_bytes(kind));
    push_all(out, &u16_bytes((body.len() + 4) as u16));
    push_all(out, body);
    assert(out@ =~= start + field_bytes(kind, body@));
}

/// Append the authenticator field for a nonce and a ciphertext.
pub fn write_authenticator(out: &mut Vec<u8>, nonce: &[u8], ciphertext: &[u8])
    requires
        nonce@.len() >= 1,
        8 + padded(nonce@.len()) + padded(ciphertext@.len()) >= 16,
        8 + padded(nonce@.len()) + padded(ciphertext@.len()) <= 0xFFFF,
    ensures
        final(out)@ == old(out)@ + field_bytes(
            NTS_AUTHENTICATOR,
            authenticator_body(nonce@, ciphertext@),
        ),
{
    let ghost start = out@;
    let nonce_pad: usize = (nonce.len() + 3) / 4 * 4 - nonce.len();
    let ct_pad: usize = (ciphertext.len() + 3) / 4 * 4 - ciphertext.len();
    let len: usize = 8 + nonce.len() + nonce_pad + ciphertext.len() + ct_pad;
    let ghost body = authenticator_body(nonce@, ciphertext@);
    proof {
        lemma_be_bytes_len(nonce@.len(), 2);
        lemma_be_bytes_len(ciphertext@.len(), 2);
        assert(body.len() + 4 == len);
    }
    push_all(out, &u16_bytes(NTS_AUTHENTICATOR));
    push_all(out, &u16_bytes(len as u16));
    push_all(out, &u16_bytes(nonce.len() as u16));
    push_all(out, &u16_bytes(ciphertext.len() as u16));
    push_all(out, nonce);
    push_zeros(out, nonce_pad);
    push_all(out, ciphertext);
    push_zeros(out, ct_pad);
    assert(out@ =~= start + field_bytes(NTS_AUTHENTICATOR, body));
}

/// An authenticator that was written reads back as the nonce and the ciphertext
/// it was written from.
pub proof fn authenticator_reads_back(nonce: Seq<u8>, ciphertext: Seq<u8>)
    requires
        1 <= nonce.len() <= 0xFFFF,
        ciphertext.len() <= 0xFFFF,
    ensures
        ({
            let body = authenticator_body(nonce, ciphertext);
            &&& authenticator_fits(body)
            &&& body_nonce(body) == nonce
            &&& body_ciphertext(body) == ciphertext
        }),
{
    let body = authenticator_body(nonce, ciphertext);
    reveal_with_fuel(byte_range, 3);
    lemma_be_bytes_len(nonce.len(), 2);
    lemma_be_bytes_len(ciphertext.len(), 2);
    be_decode_of_encode(nonce.len(), 2);
    be_decode_of_encode(ciphertext.len(), 2);
    assert(body.subrange(0, 2) =~= be_bytes(nonce.len(), 2));
    assert(body.subrange(2, 4) =~= be_bytes(ciphertext.len(), 2));
    assert(body_nonce(body) =~= nonce);
    assert(body_ciphertext(body) =~= ciphertext);
}

/// A field that was appended to a packet is the next one a walk finds there.
pub proof fn written_field_is_found(kind: u16, body: Seq<u8>, tail: Seq<u8>)
    requires
        body.len() >= 12,
        body.len() % 4 == 0,
        body.len() + 4 <= 0xFFFF,
    ensures
        ({
            let rest = field_bytes(kind, body) + tail;
            &&& starts_with_field(rest)
            &&& claimed_len(rest) == body.len() + 4
            &&& be_value(rest.subrange(0, 2)) == kind
            &&& rest.subrange(4, claimed_len(rest) as int) == body
            &&& rest.subrange(claimed_len(rest) as int, rest.len() as int) == tail
        }),
{
    let rest = field_bytes(kind, body) + tail;
    reveal_with_fuel(byte_range, 3);
    lemma_be_bytes_len(kind as nat, 2);
    lemma_be_bytes_len(body.len() + 4, 2);
    be_decode_of_encode(kind as nat, 2);
    be_decode_of_encode(body.len() + 4, 2);
    assert(rest.subrange(0, 2) =~= be_bytes(kind as nat, 2));
    assert(rest.subrange(2, 4) =~= be_bytes(body.len() + 4, 2));
    assert(rest.subrange(4, claimed_len(rest) as int) =~= body);
    assert(rest.subrange(claimed_len(rest) as int, rest.len() as int) =~= tail);
}

} // verus!
