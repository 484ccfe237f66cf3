//! Client-side NTS session state: the cookie store and the framing of each
//! exchange. A cookie is spent exactly once and replaced by a fresh one from the
//! sealed part of a reply, so that an observer cannot link two queries to the
//! same client. A failed exchange loses its cookie for good, which is why
//! replacements are asked for every time.

use std::collections::VecDeque;
use vstd::prelude::*;

use crate::nts_fields::{
    authenticator_body, authenticator_fits, body_ciphertext, body_nonce, client_authenticator,
    field_bytes, nts_fields, nts_scan, padded, scan_from, write_authenticator, write_field,
    written_field_is_found, zeros, Authenticator, NtsFields, NtsScan, NONCE_LEN, NTS_AUTHENTICATOR,
    NTS_COOKIE, NTS_COOKIE_PLACEHOLDER, UNIQUE_IDENTIFIER, UNIQUE_ID_LEN,
};
use crate::ntp::HEADER_LEN;
use crate::store::NtsKeys;
use crate::wire::lemma_be_bytes_len;

verus! {

/// Cookies the client aims to hold.
pub const TARGET_COOKIES: usize = 8;

/// The most placeholders in one request, so that a request cannot be inflated
/// into an amplification lever.
pub const MAX_PLACEHOLDERS: usize = 7;

/// Cookies the client holds at most.
pub const MAX_COOKIES: usize = 16;

/// Why a request could not be made.
#[derive(Clone, Copy, Debug, PartialEq, Eq, Structural)]
pub enum NtsSessionError {
    /// Every cookie is spent; key establishment must be run again.
    CookiesExhausted,
    /// The cookie cannot be carried in an extension field.
    UnusableCookie,
}

impl NtsSessionError {
    pub fn message(&self) -> (text: &'static str)
        ensures
            text@ == match *self {
                NtsSessionError::CookiesExhausted => "NTS cookies exhausted; re-run key establishment"@,
                NtsSessionError::UnusableCookie => "NTS cookie does not fit an extension field"@,
            },
    {
        match *self {
            NtsSessionError::CookiesExhausted => "NTS cookies exhausted; re-run key establishment",
            NtsSessionError::UnusableCookie => "NTS cookie does not fit an extension field",
        }
    }
}

/// A client session.
pub struct NtsSession {
    pub keys: NtsKeys,
    /// Cookies not yet spent, in spend order.
    pub cookies: VecDeque<Vec<u8>>,
    /// The unique identifier sent with the request in flight.
    pub pending_unique_id: [u8; UNIQUE_ID_LEN],
    /// Where key establishment said to send NTP.
    pub ntp_server: String,
    pub ntp_port: u16,
    pub ke_host: String,
}

/// The contents of a run of cookies.
pub open spec fn contents(cookies: Seq<Vec<u8>>) -> Seq<Seq<u8>> {
    cookies.map_values(|c: Vec<u8>| c@)
}

/// The cookies held after a reply brought `new` ones: as many as there is room
/// for.
pub open spec fn banked(held: Seq<Seq<u8>>, new: Seq<Seq<u8>>) -> Seq<Seq<u8>> {
    if held.len() >= MAX_COOKIES {
        held
    } else if held.len() + new.len() <= MAX_COOKIES {
        held + new
    } else {
        held + new.take(MAX_COOKIES - held.len())
    }
}

/// How many replacements a request asks for, with `held` cookies left: enough to
/// refill the store, within a limit.
pub open spec fn placeholders_wanted(held: nat) -> nat {
    if held >= TARGET_COOKIES {
        0
    } else if TARGET_COOKIES - held > MAX_PLACEHOLDERS {
        MAX_PLACEHOLDERS as nat
    } else {
        (TARGET_COOKIES - held) as nat
    }
}

impl NtsSession {
    /// What the store holds, in spend order.
    pub open spec fn held(&self) -> Seq<Seq<u8>> {
        contents(self.cookies@)
    }

    /// A session from keys and cookies, freshly established or saved.
    pub fn resume(
        keys: NtsKeys,
        cookies: Vec<Vec<u8>>,
        ntp_server: String,
        ntp_port: u16,
        ke_host: String,
    ) -> (session: Self)
        ensures
            session.keys == keys,
            session.held() == contents(cookies@),
            session.pending_unique_id@ == zeros(UNIQUE_ID_LEN as nat),
            session.ntp_server@ == ntp_server@,
            session.ntp_port == ntp_port,
            session.ke_host@ == ke_host@,
    {
        let mut queue: VecDeque<Vec<u8>> = VecDeque::new();
        let mut rest: Vec<Vec<u8>> = cookies;
        while rest.len() > 0
            invariant
                contents(rest@) + contents(queue@) == contents(cookies@),
            decreases rest@.len(),
        {
            let ghost before = contents(rest@);
            let ghost queued = contents(queue@);
            match rest.pop() {
                Some(cookie) => {
                    queue.push_front(cookie);
                    proof {
                        assert(contents(rest@) =~= before.drop_last());
                        assert(contents(queue@) =~= seq![before.last()] + queued);
                        assert(contents(rest@) + contents(queue@) =~= before + queued);
                    }
                },
                None => {},
            }
        }
        assert(contents(queue@) =~= contents(cookies@));
        let pending_unique_id: [u8; UNIQUE_ID_LEN] = [0u8;32];
        assert(pending_unique_id@ =~= zeros(UNIQUE_ID_LEN as nat));
        NtsSession { keys, cookies: queue, pending_unique_id, ntp_server, ntp_port, ke_host }
    }

    pub fn cookies_held(&self) -> (n: usize)
        ensures
            n == self.held().len(),
    {
        self.cookies.len()
    }

    /// The session keys: a saved cookie cannot be used without them.
    pub fn keys(&self) -> (keys: &NtsKeys)
        ensures
            *keys == self.keys,
    {
        &self.keys
    }

    /// Cookies not yet spent, in spend order.
    pub fn unspent_cookies(&self) -> (cookies: Vec<Vec<u8>>)
        ensures
            contents(cookies@) == self.held(),
    {
        let mut out: Vec<Vec<u8>> = Vec::new();
        let mut i: usize = 0;
        assert(contents(out@) =~= self.held().take(0));
        while i < self.cookies.len()
            invariant
                i <= self.cookies@.len(),
                contents(out@) == self.held().take(i as int),
            decreases self.cookies@.len() - i,
        {
            let ghost before = contents(out@);
            let mut copy: Vec<u8> = Vec::new();
            copy.extend_from_slice(self.cookies[i].as_slice());
            assert(copy@ =~= self.held()[i as int]);
            out.push(copy);
            i = i + 1;
            assert(contents(out@) =~= before.push(self.held()[i - 1]));
            assert(contents(out@) =~= self.held().take(i as int));
        }
        assert(self.held().take(i as int) =~= self.held());
        out
    }

    /// Take the cookie for the next request.
    pub fn spend(&mut self) -> (cookie: Result<Vec<u8>, NtsSessionError>)
        ensures
            final(self).keys == old(self).keys,
            final(self).pending_unique_id == old(self).pending_unique_id,
            final(self).ntp_server == old(self).ntp_server,
            final(self).ntp_port == old(self).ntp_port,
            final(self).ke_host == old(self).ke_host,
            match cookie {
                Ok(c) => old(self).held().len() > 0 && c@ == old(self).held()[0]
                    && final(self).held() == old(self).held().drop_first(),
                Err(e) => old(self).held().len() == 0 && final(self).held() == old(self).held()
                    && e == NtsSessionError::CookiesExhausted,
            },
    {
        match self.cookies.pop_front() {
            Some(cookie) => {
                assert(self.held() =~= old(self).held().drop_first());
                Ok(cookie)
            },
            None => Err(NtsSessionError::CookiesExhausted),
        }
    }

    /// Frame the part of a request that its authenticator vouches for: the
    /// header, a fresh unique identifier, the cookie being spent, and a
    /// placeholder for each replacement wanted. The identifier is remembered,
    /// to recognise the reply by.
    pub fn request_head(
        &mut self,
        header: &[u8; HEADER_LEN],
        unique_id: [u8; UNIQUE_ID_LEN],
        cookie: &[u8],
    ) -> (head: Result<Vec<u8>, NtsSessionError>)
        ensures
            final(self).keys == old(self).keys,
            final(self).held() == old(self).held(),
            final(self).pending_unique_id == unique_id,
            final(self).ntp_server == old(self).ntp_server,
            final(self).ntp_port == old(self).ntp_port,
            final(self).ke_host == old(self).ke_host,
            match head {
                Ok(h) => fits_a_field(cookie@) && h@ == head_bytes(
                    header@,
                    unique_id@,
                    cookie@,
                    placeholders_wanted(old(self).held().len()),
                ),
                Err(e) => !fits_a_field(cookie@) && e == NtsSessionError::UnusableCookie,
            },
    {
        self.pending_unique_id = unique_id;
        if cookie.len() < 12 || cookie.len() % 4 != 0 || cookie.len() > 0xFFFB {
            return Err(NtsSessionError::UnusableCookie);
        }
        let held: usize = self.cookies.len();
        let wanted: usize = if held >= TARGET_COOKIES {
            0
        } else if TARGET_COOKIES - held > MAX_PLACEHOLDERS {
            MAX_PLACEHOLDERS
        } else {
            TARGET_COOKIES - held
        };
        let mut out: Vec<u8> = Vec::new();
        out.extend_from_slice(header.as_slice());
        assert(out@ =~= header@);
        write_field(&mut out, UNIQUE_IDENTIFIER, unique_id.as_slice());
        write_field(&mut out, NTS_COOKIE, cookie);
        let ghost start = out@;
        let mut blank: Vec<u8> = Vec::new();
        while blank.len() < cookie.len()
            invariant
                blank@.len() <= cookie@.len(),
                blank@ == zeros(blank@.len()),
            decreases cookie@.len() - blank@.len(),
        {
            blank.push(0);
            assert(blank@ =~= zeros(blank@.len()));
        }
        let mut i: usize = 0;
        assert(out@ =~= start + placeholder_fields(cookie@.len(), 0));
        while i < wanted
            invariant
                i <= wanted,
                blank@ == zeros(cookie@.len()),
                fits_a_field(cookie@),
                out@ == start + placeholder_fields(cookie@.len(), i as nat),
            decreases wanted - i,
        {
            write_field(&mut out, NTS_COOKIE_PLACEHOLDER, blank.as_slice());
            i = i + 1;
            assert(out@ =~= start + placeholder_fields(cookie@.len(), i as nat));
        }
        assert(out@ =~= head_bytes(header@, unique_id@, cookie@, wanted as nat));
        Ok(out)
    }

    /// The parts of a reply for the cipher to open: only where the reply carries
    /// the identifier of the request in flight, and a well-formed authenticator.
    pub fn reply_authenticator<'a>(&self, packet: &'a [u8]) -> (parts: Option<Authenticator<'a>>)
        ensures
            match parts {
                Some(a) => answers(packet@, self.pending_unique_id@) && ({
                    let (body, offset) = nts_scan(packet@).authenticator->Some_0;
                    &&& a.nonce@ == body_nonce(body)
                    &&& a.ciphertext@ == body_ciphertext(body)
                    &&& a.associated@ == packet@.subrange(0, offset)
                }),
                None => !answers(packet@, self.pending_unique_id@),
            },
    {
        let fields: NtsFields<'a> = nts_fields(packet);
        let matches: bool = match fields.unique_id {
            None => false,
            Some(id) => same_bytes(id, self.pending_unique_id.as_slice()),
        };
        if !matches {
            return None;
        }
        match fields.authenticator {
            None => None,
            Some(field) => client_authenticator(packet, field),
        }
    }

    /// Bank the cookies that a verified reply brought.
    pub fn bank(&mut self, new_cookies: Vec<Vec<u8>>)
        ensures
            final(self).keys == old(self).keys,
            final(self).pending_unique_id == old(self).pending_unique_id,
            final(self).ntp_server == old(self).ntp_server,
            final(self).ntp_port == old(self).ntp_port,
            final(self).ke_host == old(self).ke_host,
            final(self).held() == banked(old(self).held(), contents(new_cookies@)),
    {
        let mut i: usize = 0;
        let ghost held = self.held();
        let ghost new = contents(new_cookies@);
        assert(held =~= held + new.take(0));
        while i < new_cookies.len() && self.cookies.len() < MAX_COOKIES
            invariant
                i <= new_cookies@.len(),
                new == contents(new_cookies@),
                held == old(self).held(),
                self.held() == held + new.take(i as int),
                i > 0 ==> self.cookies@.len() <= MAX_COOKIES,
                self.keys == old(self).keys,
                self.pending_unique_id == old(self).pending_unique_id,
                self.ntp_server == old(self).ntp_server,
                self.ntp_port == old(self).ntp_port,
                self.ke_host == old(self).ke_host,
            decreases new_cookies@.len() - i,
        {
            let ghost before = self.held();
            let mut copy: Vec<u8> = Vec::new();
            copy.extend_from_slice(new_cookies[i].as_slice());
            assert(copy@ =~= new[i as int]);
            self.cookies.push_back(copy);
            i = i + 1;
            assert(self.held() =~= before.push(new[i - 1]));
            assert(self.held() =~= held + new.take(i as int));
        }
        proof {
            assert(self.held().len() == self.cookies@.len());
            assert(new.take(new.len() as int) =~= new);
            assert(self.held() =~= banked(held, new));
        }
    }
}

/// Whether a cookie can be carried in an extension field.
pub open spec fn fits_a_field(cookie: Seq<u8>) -> bool {
    12 <= cookie.len() <= 0xFFFB && cookie.len() % 4 == 0
}

/// `count` placeholder fields, each as long as a cookie of `len` bytes.
pub open spec fn placeholder_fields(len: nat, count: nat) -> Seq<u8>
    decreases count,
{
    if count == 0 {
        Seq::empty()
    } else {
        placeholder_fields(len, (count - 1) as nat) + field_bytes(
            NTS_COOKIE_PLACEHOLDER,
            zeros(len),
        )
    }
}

/// The part of a request that its authenticator vouches for.
pub open spec fn head_bytes(
    header: Seq<u8>,
    unique_id: Seq<u8>,
    cookie: Seq<u8>,
    placeholders: nat,
) -> Seq<u8> {
    header + field_bytes(UNIQUE_IDENTIFIER, unique_id) + field_bytes(NTS_COOKIE, cookie)
        + placeholder_fields(cookie.len(), placeholders)
}

/// Whether a packet carries this identifier, and a well-formed authenticator.
pub open spec fn answers(packet: Seq<u8>, unique_id: Seq<u8>) -> bool {
    let scan = nts_scan(packet);
    scan.unique_id == Some(unique_id) && scan.authenticator is Some && authenticator_fits(
        scan.authenticator->Some_0.0,
    )
}

fn same_bytes(a: &[u8], b: &[u8]) -> (same: bool)
    ensures
        same == (a@ == b@),
{
    if a.len() != b.len() {
        return false;
    }
    let mut i: usize = 0;
    while i < a.len()
        invariant
            i <= a@.len() == b@.len(),
            forall|j: int| 0 <= j < i ==> a@[j] == b@[j],
        decreases a@.len() - i,
    {
        if a[i] != b[i] {
            return false;
        }
        i = i + 1;
    }
    assert(a@ =~= b@);
    true
}

/// Complete a request with its authenticator.
pub fn seal_request(head: Vec<u8>, nonce: &[u8; NONCE_LEN], ciphertext: &[u8]) -> (packet: Vec<u8>)
    requires
        8 + NONCE_LEN + padded(ciphertext@.len()) <= 0xFFFF,
    ensures
        packet@ == head@ + field_bytes(
            NTS_AUTHENTICATOR,
            authenticator_body(nonce@, ciphertext@),
        ),
{
    let mut packet: Vec<u8> = head;
    write_authenticator(&mut packet, nonce.as_slice(), ciphertext);
    packet
}

/// What happens to a cookie store.
pub ghost enum StoreEvent {
    Spend,
    Bank { new: Seq<Seq<u8>> },
}

/// A cookie store and its history: what it holds, what was spent, and what was
/// ever taken in.
pub ghost struct StoreHistory {
    pub held: Seq<Seq<u8>>,
    pub spent: Seq<Seq<u8>>,
    pub taken_in: Seq<Seq<u8>>,
}

/// A store after a run of events, starting with `first`.
pub open spec fn history(first: Seq<Seq<u8>>, events: Seq<StoreEvent>) -> StoreHistory
    decreases events.len(),
{
    if events.len() == 0 {
        StoreHistory { held: first, spent: Seq::empty(), taken_in: first }
    } else {
        let h = history(first, events.drop_last());
        match events.last() {
            StoreEvent::Spend => if h.held.len() == 0 {
                h
            } else {
                StoreHistory {
                    held: h.held.drop_first(),
                    spent: h.spent.push(h.held[0]),
                    taken_in: h.taken_in,
                }
            },
            StoreEvent::Bank { new } => StoreHistory {
                held: banked(h.held, new),
                spent: h.spent,
                taken_in: h.taken_in + banked(h.held, new).skip(h.held.len() as int),
            },
        }
    }
}

/// A cookie is spent exactly once: whatever is asked of a store, what it spent
/// followed by what it still holds is what it took in, each cookie once and in
/// the order in which it came.
pub proof fn each_cookie_is_spent_once(first: Seq<Seq<u8>>, events: Seq<StoreEvent>)
    ensures
        ({
            let h = history(first, events);
            h.spent + h.held == h.taken_in
        }),
    decreases events.len(),
{
    let h = history(first, events);
    if events.len() > 0 {
        each_cookie_is_spent_once(first, events.drop_last());
        let g = history(first, events.drop_last());
        match events.last() {
            StoreEvent::Spend => {
                if g.held.len() > 0 {
                    assert(h.spent + h.held =~= g.spent + g.held);
                }
            },
            StoreEvent::Bank { new } => {
                let b = banked(g.held, new);
                assert(b =~= g.held + b.skip(g.held.len() as int));
                assert(h.spent + h.held =~= (g.spent + g.held) + b.skip(g.held.len() as int));
            },
        }
    } else {
        assert(h.spent + h.held =~= first);
    }
}

/// A store never grows past its limit, unless it started with more.
pub proof fn the_store_is_bounded(first: Seq<Seq<u8>>, events: Seq<StoreEvent>)
    requires
        first.len() <= MAX_COOKIES,
    ensures
        history(first, events).held.len() <= MAX_COOKIES,
    decreases events.len(),
{
    if events.len() > 0 {
        the_store_is_bounded(first, events.drop_last());
    }
}

proof fn lemma_placeholders_scan(len: nat, count: nat, at: int, found: NtsScan, tail: Seq<u8>)
    requires
        12 <= len <= 0xFFFB,
        len % 4 == 0,
    ensures
        scan_from(placeholder_fields(len, count) + tail, at, found) == scan_from(
            tail,
            at + placeholder_fields(len, count).len(),
            NtsScan { placeholders: found.placeholders + count, ..found },
        ),
    decreases count,
{
    if count == 0 {
        assert(placeholder_fields(len, count) + tail =~= tail);
    } else {
        let less = (count - 1) as nat;
        let one = field_bytes(NTS_COOKIE_PLACEHOLDER, zeros(len));
        let before = placeholder_fields(len, less);
        assert(placeholder_fields(len, count) + tail =~= before + (one + tail));
        lemma_placeholders_scan(len, less, at, found, one + tail);
        written_field_is_found(NTS_COOKIE_PLACEHOLDER, zeros(len), tail);
        lemma_be_bytes_len(NTS_COOKIE_PLACEHOLDER as nat, 2);
        lemma_be_bytes_len(zeros(len).len() + 4, 2);
    }
}

/// What a client frames is what a server reads: the identifier, the cookie, one
/// placeholder for each replacement asked for, and the authenticator over all of
/// it.
pub proof fn a_request_reads_back(
    header: Seq<u8>,
    unique_id: Seq<u8>,
    cookie: Seq<u8>,
    placeholders: nat,
    nonce: Seq<u8>,
    ciphertext: Seq<u8>,
)
    requires
        header.len() == HEADER_LEN,
        unique_id.len() == UNIQUE_ID_LEN,
        fits_a_field(cookie),
        nonce.len() == NONCE_LEN,
        8 + NONCE_LEN + padded(ciphertext.len()) <= 0xFFFF,
    ensures
        ({
            let head = head_bytes(header, unique_id, cookie, placeholders);
            let body = authenticator_body(nonce, ciphertext);
            nts_scan(head + field_bytes(NTS_AUTHENTICATOR, body)) == NtsScan {
                cookie: Some(cookie),
                unique_id: Some(unique_id),
                placeholders,
                authenticator: Some((body, head.len() as int)),
            }
        }),
{
    let head = head_bytes(header, unique_id, cookie, placeholders);
    let body = authenticator_body(nonce, ciphertext);
    let seal = field_bytes(NTS_AUTHENTICATOR, body);
    let blanks = placeholder_fields(cookie.len(), placeholders);
    let second = field_bytes(NTS_COOKIE, cookie);
    let first = field_bytes(UNIQUE_IDENTIFIER, unique_id);
    let packet = head + seal;
    let rest = packet.subrange(HEADER_LEN as int, packet.len() as int);
    let nothing = NtsScan {
        cookie: None,
        unique_id: None,
        placeholders: 0,
        authenticator: None,
    };
    lemma_be_bytes_len(UNIQUE_IDENTIFIER as nat, 2);
    lemma_be_bytes_len(NTS_COOKIE as nat, 2);
    lemma_be_bytes_len(unique_id.len() + 4, 2);
    lemma_be_bytes_len(cookie.len() + 4, 2);
    lemma_be_bytes_len(nonce.len(), 2);
    lemma_be_bytes_len(ciphertext.len(), 2);
    assert(rest =~= first + (second + (blanks + seal)));
    written_field_is_found(UNIQUE_IDENTIFIER, unique_id, second + (blanks + seal));
    written_field_is_found(NTS_COOKIE, cookie, blanks + seal);
    let at = HEADER_LEN + first.len() + second.len();
    let found = NtsScan { cookie: Some(cookie), unique_id: Some(unique_id), ..nothing };
    lemma_placeholders_scan(cookie.len(), placeholders, at, found, seal);
    assert(body.len() % 4 == 0);
    written_field_is_found(NTS_AUTHENTICATOR, body, Seq::empty());
    assert(seal + Seq::<u8>::empty() =~= seal);
    reveal_with_fuel(scan_from, 4);
}

} // verus!
