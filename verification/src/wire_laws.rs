//! Where everything stands on the wire, byte by byte, and what a timestamp tells.

use vstd::prelude::*;

use crate::exchange::{leap_name, refid_text, shown_prefix, unix_base};
use crate::exchange_laws::{lemma_tick, since_1900, tick_of};
use crate::ntp::{
    header_of, starts_with_field, trailer_items, unix_ticks, LeapIndicator, NtpPacket, NtpTimestamp,
    TrailerItem,
};
use crate::reply::is_request;
use crate::reply_laws::lemma_header;
use crate::wire::be_value;

verus! {

/// Two bytes, the first counting for more.
pub proof fn two_bytes(b: Seq<u8>)
    requires
        b.len() == 2,
    ensures
        be_value(b) == b[0] * 0x100 + b[1],
{
    reveal_with_fuel(be_value, 3);
    assert(b.drop_last().last() == b[0]);
}

/// Four bytes, the first counting for most.
pub proof fn four_bytes(b: Seq<u8>)
    requires
        b.len() == 4,
    ensures
        be_value(b) == b[0] * 0x100_0000 + b[1] * 0x1_0000 + b[2] * 0x100 + b[3],
{
    reveal_with_fuel(be_value, 5);
    assert(b.drop_last().last() == b[2]);
    assert(b.drop_last().drop_last().last() == b[1]);
    assert(b.drop_last().drop_last().drop_last().last() == b[0]);
}

/// Eight bytes: the first four count in units of 2^32, the last four in ones.
pub proof fn eight_bytes(b: Seq<u8>)
    requires
        b.len() == 8,
    ensures
        be_value(b) == (b[0] * 0x100_0000 + b[1] * 0x1_0000 + b[2] * 0x100 + b[3]) * 0x1_0000_0000
            + (b[4] * 0x100_0000 + b[5] * 0x1_0000 + b[6] * 0x100 + b[7]),
{
    let h = b.take(4);
    four_bytes(h);
    let b7 = b.drop_last();
    let b6 = b7.drop_last();
    let b5 = b6.drop_last();
    let b4 = b5.drop_last();
    assert(b4 =~= h);
    assert(be_value(b) == be_value(b7) * 256 + b[7]);
    assert(be_value(b7) == be_value(b6) * 256 + b[6]);
    assert(be_value(b6) == be_value(b5) * 256 + b[5]);
    assert(be_value(b5) == be_value(b4) * 256 + b[4]);
}

/// The header, byte by byte: leap, version and mode share the first; stratum, poll and
/// precision have one each; root delay, root dispersion and reference id have four;
/// and the reference, origin, receive and transmit times have eight, in that order.
pub proof fn the_header_byte_by_byte(buf: Seq<u8>, p: NtpPacket)
    requires
        buf.len() >= 48,
        p.decodes(buf),
    ensures
        p.leap is NoWarning <==> buf[0] < 64,
        p.leap is LastMinute61 <==> 64 <= buf[0] < 128,
        p.leap is LastMinute59 <==> 128 <= buf[0] < 192,
        p.leap is Unsynchronized <==> 192 <= buf[0],
        p.version == buf[0] / 8 % 8,
        p.mode is Client <==> buf[0] % 8 == 3,
        p.mode is Server <==> buf[0] % 8 == 4,
        p.mode is SymmetricActive <==> buf[0] % 8 == 1,
        p.mode is SymmetricPassive <==> buf[0] % 8 == 2,
        p.mode is Broadcast <==> buf[0] % 8 == 5,
        p.stratum == buf[1],
        p.poll == if buf[2] < 128 {
            buf[2] as int
        } else {
            buf[2] - 256
        },
        p.precision == if buf[3] < 128 {
            buf[3] as int
        } else {
            buf[3] - 256
        },
        p.root_delay.0 == buf[4] * 0x100_0000 + buf[5] * 0x1_0000 + buf[6] * 0x100 + buf[7],
        p.root_dispersion.0 == buf[8] * 0x100_0000 + buf[9] * 0x1_0000 + buf[10] * 0x100 + buf[11],
        p.reference_id@ == seq![buf[12], buf[13], buf[14], buf[15]],
        p.reference_ts.0 == eight(buf, 16),
        p.origin_ts.0 == eight(buf, 24),
        p.receive_ts.0 == eight(buf, 32),
        p.transmit_ts.0 == eight(buf, 40),
{
    four_bytes(buf.subrange(4, 8));
    four_bytes(buf.subrange(8, 12));
    eight_bytes(buf.subrange(16, 24));
    eight_bytes(buf.subrange(24, 32));
    eight_bytes(buf.subrange(32, 40));
    eight_bytes(buf.subrange(40, 48));
    assert(buf.subrange(12, 16) =~= seq![buf[12], buf[13], buf[14], buf[15]]);
}

/// The number in the eight bytes at `at`: seconds in the first four, 2^-32 of them in
/// the last.
pub open spec fn eight(buf: Seq<u8>, at: int) -> int {
    (buf[at] * 0x100_0000 + buf[at + 1] * 0x1_0000 + buf[at + 2] * 0x100 + buf[at + 3])
        * 0x1_0000_0000 + (buf[at + 4] * 0x100_0000 + buf[at + 5] * 0x1_0000 + buf[at + 6] * 0x100
        + buf[at + 7])
}

/// What a client sends is a request that a server answers, and nothing in it but the
/// timestamp tells anything of the client.
pub proof fn a_request_is_one(packet: NtpPacket, version: u8, ts: NtpTimestamp)
    requires
        packet.asks(version, ts),
        3 <= version <= 4,
    ensures
        is_request(packet.wire()),
        header_of(packet.wire()) == packet,
        packet.wire().len() == 48,
        packet.wire()[0] == version * 8 + 3,
        packet.wire()[1] == 0 && packet.wire()[2] == 0 && packet.wire()[3] == 32,
        packet.transmit_ts == ts,
        packet.origin_ts.0 == 0 && packet.receive_ts.0 == 0 && packet.reference_ts.0 == 0,
{
    lemma_header(packet);
    crate::ntp::lemma_wire_parts(packet);
}

/// A timestamp tells Unix time: counted from 1900 through the eras, in seconds of 2^32
/// ticks, it is the time rounded down to a tick.
pub proof fn a_timestamp_tells_unix_time(secs: int, nanos: int)
    requires
        0 <= nanos < 1_000_000_000,
    ensures
        0 <= unix_ticks(secs, nanos) < 0x1_0000_0000_0000_0000,
        exists|ticks: int|
            unix_ticks(secs, nanos) == #[trigger] (ticks % 0x1_0000_0000_0000_0000)
                && since_1900(secs * 1_000_000_000 + nanos) - 1_000_000_000 < ticks * 1_000_000_000
                <= since_1900(secs * 1_000_000_000 + nanos),
{
    let ns = secs * 1_000_000_000 + nanos;
    assert(ns / 1_000_000_000 == secs && ns % 1_000_000_000 == nanos);
    lemma_tick(ns);
    let t = tick_of(ns);
    assert(unix_ticks(secs, nanos) == t % 0x1_0000_0000_0000_0000);
}

/// The names of the leap indicators are four different ones, and the one that is not
/// to be trusted says so.
pub proof fn leap_names_are_apart(a: LeapIndicator, b: LeapIndicator)
    ensures
        leap_name(a)@ == leap_name(b)@ ==> a == b,
        leap_name(LeapIndicator::Unsynchronized)@ == "unsynchronized"@,
        leap_name(LeapIndicator::LastMinute61)@ == "last-minute-61"@,
        leap_name(LeapIndicator::LastMinute59)@ == "last-minute-59"@,
{
    reveal_strlit("no-warning");
    reveal_strlit("last-minute-61");
    reveal_strlit("last-minute-59");
    reveal_strlit("unsynchronized");
    assert("last-minute-61"@[12] == '6');
    assert("last-minute-59"@[12] == '5');
    assert("no-warning"@.len() == 10);
    assert("unsynchronized"@[0] == 'u');
    assert("last-minute-61"@[0] == 'l' && "last-minute-59"@[0] == 'l');
}

proof fn lemma_shown(id: Seq<u8>)
    requires
        forall|i: int| 0 <= i < id.len() ==> 0x21 <= (#[trigger] id[i]) <= 0x7e,
    ensures
        shown_prefix(id).len() == id.len(),
        forall|i: int| 0 <= i < id.len() ==> shown_prefix(id)[i] == (#[trigger] id[i]) as char,
    decreases id.len(),
{
    if id.len() > 0 {
        let rest = id.drop_first();
        assert(0x21 <= id[0] <= 0x7e);
        assert forall|i: int| 0 <= i < rest.len() implies 0x21 <= (#[trigger] rest[i]) <= 0x7e by {
            assert(rest[i] == id[i + 1]);
        }
        lemma_shown(rest);
        assert forall|i: int| 0 <= i < id.len() implies shown_prefix(id)[i] == (
        #[trigger] id[i]) as char by {
            if i > 0 {
                assert(rest[i - 1] == id[i]);
            }
        }
    }
}

/// A primary server is shown by the name of its clock, as it stands, and every other by
/// eight hex digits that read back as its reference. A name ends at the first zero, and what
/// cannot be shown of it is a question mark.
pub proof fn a_reference_is_shown(stratum: u8, id: Seq<u8>)
    requires
        id.len() == 4,
    ensures
        stratum == 1 && (forall|i: int| 0 <= i < 4 ==> 0x21 <= (#[trigger] id[i]) <= 0x7e)
            ==> refid_text(stratum, id).len() == 4 && forall|i: int|
            0 <= i < 4 ==> refid_text(stratum, id)[i] == (#[trigger] id[i]) as char,
        stratum != 1 ==> refid_text(stratum, id) == crate::hex::hex_text(id),
        id[0] == 0 ==> refid_text(stratum, id) == crate::hex::hex_text(id),
        stratum == 1 && id[0] != 0 ==> refid_text(stratum, id).len() > 0 && refid_text(
            stratum,
            id,
        )[0] == if 0x21 <= id[0] <= 0x7e {
            id[0] as char
        } else {
            '?'
        },
        stratum == 1 && id[0] != 0 && id[1] == 0 ==> refid_text(stratum, id).len() == 1,
{
    if forall|i: int| 0 <= i < 4 ==> 0x21 <= (#[trigger] id[i]) <= 0x7e {
        lemma_shown(id);
    }
    assert(id.drop_first()[0] == id[1]);
    assert(shown_prefix(id.drop_first()).len() == 0 || id[1] != 0);
}

/// What an extension field is: its first two bytes are its type, the next two its length with
/// those four, sixteen at least, a multiple of four, and no more than there is; what stands
/// between is its value. Anything else is taken as it is, to the end.
pub proof fn a_field_says_how_long_it_is(rest: Seq<u8>)
    requires
        rest.len() > 0,
    ensures
        ({
            let n = rest[2] * 0x100 + rest[3];
            let items = trailer_items(rest);
            if rest.len() >= 4 && n >= 16 && n % 4 == 0 && n <= rest.len() {
                items.len() > 0 && items[0] == (TrailerItem::Extension {
                    field_type: (rest[0] * 0x100 + rest[1]) as u16,
                    value: rest.subrange(4, n),
                }) && items.skip(1) == trailer_items(rest.skip(n))
            } else {
                items == seq![TrailerItem::Opaque { bytes: rest }]
            }
        }),
{
    if rest.len() >= 4 {
        two_bytes(rest.subrange(2, 4));
        two_bytes(rest.subrange(0, 2));
        let n = rest[2] * 0x100 + rest[3];
        if n <= rest.len() {
            assert(rest.subrange(n, rest.len() as int) =~= rest.skip(n));
        }
        let items = trailer_items(rest);
        if starts_with_field(rest) {
            assert(items.skip(1) =~= trailer_items(rest.skip(n)));
        }
    }
}

/// A timestamp of the first era counts from 1900: 70 years, seventeen of them leap years,
/// before Unix time starts.
pub proof fn unix_time_starts_seventy_years_in(ts: NtpTimestamp, secs: int, frac: int)
    requires
        ts.0 == (secs + (70 * 365 + 17) * 86_400) * 0x1_0000_0000 + frac,
    ensures
        unix_base(ts) == secs * 0x1_0000_0000 + frac,
{
}

} // verus!
