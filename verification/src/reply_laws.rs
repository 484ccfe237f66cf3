//! What serving time is for: a client that asks gets an answer that it accepts,
//! and that tells it how far the server's clock is ahead of its own.

use vstd::prelude::*;

use crate::exchange::{answers_request, is_measurement, is_usable, Measurement};
use crate::exchange_laws::{an_exchange_measures_the_clocks, near, since_1900};
use crate::ntp::{
    a_header_decodes_one_way, header_of, lemma_wire_parts, LeapIndicator, NtpPacket, NtpTimestamp,
};
use crate::policy::ResponseMode;
use crate::reply::{is_answer, is_kiss, is_request, stamped_header};
use crate::wire::{be_bytes, be_value};

verus! {

/// What the header bytes of a packet say of it.
pub(crate) proof fn lemma_header(packet: NtpPacket)
    requires
        3 <= packet.version <= 4,
    ensures
        packet.decodes(packet.wire()),
        header_of(packet.wire()) == packet,
        packet.wire().len() == 48,
        packet.wire()[0] / 64 == packet.leap.code(),
        packet.wire()[0] / 8 % 8 == packet.version,
        packet.wire()[0] % 8 == packet.mode.code(),
{
    lemma_wire_parts(packet);
    reveal_with_fuel(crate::wire::byte_range, 9);
    crate::wire::be_decode_of_encode(packet.root_delay.0 as nat, 4);
    crate::wire::be_decode_of_encode(packet.root_dispersion.0 as nat, 4);
    crate::wire::be_decode_of_encode(packet.reference_ts.0 as nat, 8);
    crate::wire::be_decode_of_encode(packet.origin_ts.0 as nat, 8);
    crate::wire::be_decode_of_encode(packet.receive_ts.0 as nat, 8);
    crate::wire::be_decode_of_encode(packet.transmit_ts.0 as nat, 8);
    let leap = packet.leap.code();
    let version = packet.version;
    let mode = packet.mode.code();
    assert(leap < 4 && mode < 8);
    assert(({
        let b = (leap * 64 + version % 8 * 8 + mode) as u8;
        b / 64 == leap && b / 8 % 8 == version && b % 8 == mode
    }));
    assert(packet.decodes(packet.wire()));
    a_header_decodes_one_way(packet.wire(), packet, packet);
}

/// Every answer is one that a client takes: it comes from a server that says it
/// is synchronized, carries both of its times, speaks the client's version, and
/// echoes what the client sent, so that the client knows it for the answer to its
/// request. An answer in basic mode echoes the client's transmit time, one in
/// interleaved mode its receive time.
pub proof fn an_answer_is_accepted(
    request: NtpPacket,
    reply: NtpPacket,
    recv_ts: NtpTimestamp,
    mode: ResponseMode,
    stratum: u8,
    clock: Option<NtpTimestamp>,
    sent: NtpPacket,
)
    requires
        is_answer(reply, request, recv_ts, mode, stratum),
        stamped_header(reply, mode, clock) == Some(sent),
        3 <= request.version <= 4,
        1 <= stratum <= 15,
        match mode {
            ResponseMode::Basic => clock->Some_0.0 >= 2,
            ResponseMode::Interleaved { prev_transmit } => prev_transmit.0 >= 2,
        },
    ensures
        is_usable(sent),
        sent.leap == LeapIndicator::NoWarning,
        sent.stratum == stratum,
        sent.version == request.version,
        answers_request(
            sent.wire(),
            match mode {
                ResponseMode::Basic => request.transmit_ts,
                ResponseMode::Interleaved { .. } => request.receive_ts,
            },
        ),
        header_of(sent.wire()) == sent,
        sent.wire().len() == 48,
        sent.wire()[0] == request.version * 8 + 4,
        sent.wire()[1] == stratum,
{
    lemma_header(sent);
    lemma_wire_parts(sent);
    assert(sent.receive_ts.0 % 2 == 1);
}

/// What an answer tells of the server itself: its stratum, its interval as the client's, a
/// precision of about a microsecond, no delay to a root that it is itself, a dispersion
/// under a tenth of a millisecond, its name, and when it last heard of its clock: now.
pub proof fn an_answer_tells_of_the_server(
    request: NtpPacket,
    reply: NtpPacket,
    recv_ts: NtpTimestamp,
    mode: ResponseMode,
    stratum: u8,
    clock: Option<NtpTimestamp>,
    sent: NtpPacket,
)
    requires
        is_answer(reply, request, recv_ts, mode, stratum),
        stamped_header(reply, mode, clock) == Some(sent),
    ensures
        sent.leap is NoWarning && sent.mode is Server,
        sent.stratum == stratum,
        sent.poll == request.poll,
        sent.precision == -20,
        sent.root_delay.0 == 0,
        sent.root_dispersion.0 == 6,
        sent.reference_id@ == seq!['R' as u8, 'S' as u8, 'T' as u8, 'Y' as u8],
        sent.reference_ts == recv_ts,
        sent.receive_ts.0 - recv_ts.0 == 0 || sent.receive_ts.0 - recv_ts.0 == 1,
        match mode {
            ResponseMode::Basic => sent.origin_ts == request.transmit_ts && clock is Some && 0
                <= clock->Some_0.0 - sent.transmit_ts.0 <= 1,
            ResponseMode::Interleaved { prev_transmit } => sent.origin_ts == request.receive_ts && 0
                <= prev_transmit.0 - sent.transmit_ts.0 <= 1,
        },
{
}

/// A server never answers an answer: what it sends is no request, so two servers
/// cannot be set to answer each other for ever.
pub proof fn an_answer_is_never_answered(
    request: NtpPacket,
    reply: NtpPacket,
    recv_ts: NtpTimestamp,
    mode: ResponseMode,
    stratum: u8,
)
    requires
        3 <= request.version <= 4,
        is_answer(reply, request, recv_ts, mode, stratum) || is_kiss(reply, request, recv_ts),
    ensures
        !is_request(reply.wire()),
{
    lemma_header(reply);
    lemma_wire_parts(reply);
}

/// A kiss of death moves no clock: the client knows it for the answer to its
/// request, and does not use its numbers.
pub proof fn a_kiss_moves_no_clock(request: NtpPacket, reply: NtpPacket, recv_ts: NtpTimestamp)
    requires
        3 <= request.version <= 4,
        is_kiss(reply, request, recv_ts),
    ensures
        !is_usable(reply),
        reply.stratum == 0,
        answers_request(reply.wire(), request.transmit_ts),
        reply.wire()[1] == 0,
        reply.wire().subrange(12, 16) == seq![0x52u8, 0x41u8, 0x54u8, 0x45u8],
        reply.leap is NoWarning && reply.mode is Server && reply.version == request.version,
        reply.poll == request.poll && reply.precision == -20,
        reply.root_delay.0 == 0 && reply.root_dispersion.0 == 0 && reply.reference_ts.0 == 0,
        reply.origin_ts == request.transmit_ts,
        reply.receive_ts == recv_ts && reply.transmit_ts == recv_ts,
{
    lemma_header(reply);
    lemma_wire_parts(reply);
}

proof fn lemma_zero_bytes(bytes: Seq<u8>)
    ensures
        be_value(bytes) == 0 <==> forall|i: int| 0 <= i < bytes.len() ==> (#[trigger] bytes[i]) == 0,
    decreases bytes.len(),
{
    if bytes.len() > 0 {
        let fewer = bytes.drop_last();
        lemma_zero_bytes(fewer);
        if be_value(bytes) == 0 {
            assert forall|i: int| 0 <= i < bytes.len() implies (#[trigger] bytes[i]) == 0 by {
                if i < fewer.len() {
                    assert(fewer[i] == bytes[i]);
                }
            }
        }
        if forall|i: int| 0 <= i < bytes.len() ==> (#[trigger] bytes[i]) == 0 {
            assert forall|i: int| 0 <= i < fewer.len() implies (#[trigger] fewer[i]) == 0 by {
                assert(fewer[i] == bytes[i]);
            }
            assert(bytes[bytes.len() - 1] == 0);
        }
    }
}

/// Which datagrams may move a clock, byte by byte: the leap bits say anything but
/// unsynchronized, the stratum is one to fifteen, and neither the receive time nor
/// the transmit time is all zeros.
pub proof fn usable_replies_on_the_wire(buf: Seq<u8>)
    requires
        buf.len() >= 48,
        header_of(buf).decodes(buf),
    ensures
        is_usable(header_of(buf)) <==> {
            &&& buf[0] < 192
            &&& 1 <= buf[1] <= 15
            &&& exists|i: int| 32 <= i < 40 && #[trigger] buf[i] != 0
            &&& exists|i: int| 40 <= i < 48 && #[trigger] buf[i] != 0
        },
{
    let p = header_of(buf);
    let r = buf.subrange(32, 40);
    let x = buf.subrange(40, 48);
    lemma_zero_bytes(r);
    lemma_zero_bytes(x);
    if p.receive_ts.0 != 0 {
        let i = choose|i: int| 0 <= i < r.len() && (#[trigger] r[i]) != 0;
        assert(buf[i + 32] == r[i]);
    } else {
        assert forall|i: int| 32 <= i < 40 implies #[trigger] buf[i] == 0 by {
            assert(r[i - 32] == buf[i]);
        }
    }
    if p.transmit_ts.0 != 0 {
        let i = choose|i: int| 0 <= i < x.len() && (#[trigger] x[i]) != 0;
        assert(buf[i + 40] == x[i]);
    } else {
        assert forall|i: int| 40 <= i < 48 implies #[trigger] buf[i] == 0 by {
            assert(x[i - 40] == buf[i]);
        }
    }
}

/// Which datagrams answer a request, byte by byte: server mode, version three or
/// four, and the request's own timestamp where the origin stands.
pub proof fn answers_on_the_wire(buf: Seq<u8>, nonce: NtpTimestamp)
    requires
        buf.len() >= 48,
        header_of(buf).decodes(buf),
    ensures
        answers_request(buf, nonce) <==> {
            &&& buf[0] % 8 == 4
            &&& (buf[0] / 8 % 8 == 3 || buf[0] / 8 % 8 == 4)
            &&& buf.subrange(24, 32) == be_bytes(nonce.0 as nat, 8)
        },
{
    let o = buf.subrange(24, 32);
    crate::wire::be_encode_of_decode(o);
    reveal_with_fuel(crate::wire::byte_range, 9);
    crate::wire::be_decode_of_encode(nonce.0 as nat, 8);
}

proof fn lemma_marks_stay_in_their_era(tick: int)
    ensures
        ({
            let era = 0x1_0000_0000_0000_0000int;
            let t = tick % era;
            (tick - t % 2 + 1) % era == t - t % 2 + 1 && (tick - t % 2) % era == t - t % 2
        }),
{
    let era = 0x1_0000_0000_0000_0000int;
    let t = tick % era;
    vstd::arithmetic::div_mod::lemma_fundamental_div_mod(tick, era);
    vstd::arithmetic::div_mod::lemma_mod_multiples_vanish(tick / era, t - t % 2 + 1, era);
    vstd::arithmetic::div_mod::lemma_mod_multiples_vanish(tick / era, t - t % 2, era);
}

/// Serving tells the time: a client that asks, in basic mode, a server whose clock
/// reads `theta` more than its own gets an answer that it measures as `theta`,
/// wrong by half of what the two ways differ by, to within a nanosecond. All times
/// are in units of 2^-32 ns; `arrived` and `left` are what the server's clock read,
/// in ticks from 1900, to within a tick.
#[verifier::rlimit(50)]
pub proof fn a_client_learns_the_servers_time(
    request: NtpPacket,
    reply: NtpPacket,
    stratum: u8,
    sent: NtpPacket,
    t1: int,
    t4: int,
    m: Option<Measurement>,
    arrived: int,
    left: int,
    theta: int,
    out: int,
    hold: int,
    back: int,
)
    requires
        3 <= request.version <= 4,
        1 <= stratum <= 15,
        is_answer(
            reply,
            request,
            NtpTimestamp((arrived % 0x1_0000_0000_0000_0000) as u64),
            ResponseMode::Basic,
            stratum,
        ),
        stamped_header(
            reply,
            ResponseMode::Basic,
            Some(NtpTimestamp((left % 0x1_0000_0000_0000_0000) as u64)),
        ) == Some(sent),
        left % 0x1_0000_0000_0000_0000 >= 2,
        is_measurement(header_of(sent.wire()), t1, t4, m),
        -1_000_000_000 <= arrived * 1_000_000_000 - (since_1900(t1) + out + theta)
            <= 1_000_000_000,
        -1_000_000_000 <= left * 1_000_000_000 - (since_1900(t1) + out + hold + theta)
            <= 1_000_000_000,
        (t4 - t1) * 0x1_0000_0000 == out + hold + back,
        out + back >= 4_000_000_000,
        near(arrived - 1, t1) && near(arrived + 1, t1) && near(left - 1, t1) && near(left, t1),
    ensures
        answers_request(sent.wire(), request.transmit_ts),
        is_usable(header_of(sent.wire())),
        m is Some,
        -2000 * 0x1_0000_0000 < 2 * m->Some_0.offset_ps * 0x1_0000_0000 - (2 * theta + out - back)
            * 1000 < 2000 * 0x1_0000_0000,
        -1000 * 0x1_0000_0000 < m->Some_0.delay_ps * 0x1_0000_0000 - (out + back) * 1000 < 1000
            * 0x1_0000_0000,
{
    let era = 0x1_0000_0000_0000_0000int;
    let a = arrived % era;
    let l = left % era;
    let recv = NtpTimestamp(a as u64);
    an_answer_is_accepted(
        request,
        reply,
        recv,
        ResponseMode::Basic,
        stratum,
        Some(NtpTimestamp(l as u64)),
        sent,
    );
    // The marks move each time by a tick at most, and never out of its era.
    let received = arrived - a % 2 + 1;
    let stamped = left - l % 2;
    assert(sent.receive_ts.0 == a - a % 2 + 1);
    assert(sent.transmit_ts.0 == l - l % 2);
    lemma_marks_stay_in_their_era(arrived);
    lemma_marks_stay_in_their_era(left);
    an_exchange_measures_the_clocks(
        header_of(sent.wire()),
        t1,
        t4,
        m,
        received,
        stamped,
        theta,
        out,
        hold,
        back,
    );
}

} // verus!
