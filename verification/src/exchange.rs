//! One client exchange: which datagram is the answer, whether the server is
//! usable, and what the four timestamps say.
//!
//! All four times are taken relative to the moment the request left, in units
//! that hold both a timestamp tick (2^-32 s) and a nanosecond exactly, so every
//! bit of the wire's precision survives and no era has to be guessed.

use vstd::prelude::*;

use crate::arith::{quotient, size, toward_zero};
use crate::filter::Sample;
use crate::ntp::{
    a_header_decodes_one_way, era_ticks, header_of, unix_ticks, LeapIndicator, Mode, NtpPacket,
    NtpTimestamp, NANOS_PER_SECOND, TICKS_PER_SECOND, UNIX_EPOCH_OFFSET,
};
use crate::select::{
    best_agreement, lists_survivors, names_survivors, no_majority, select, Selection,
    SourceEstimate,
};

verus! {

/// Whether a datagram answers the request that carried `nonce`: a server-mode
/// packet that echoes it. Anything else is a stray, and is passed over.
pub open spec fn answers_request(datagram: Seq<u8>, nonce: NtpTimestamp) -> bool {
    &&& datagram.len() >= crate::ntp::HEADER_LEN
    &&& 3 <= datagram[0] / 8 % 8 <= 4
    &&& header_of(datagram).origin_ts == nonce
    &&& header_of(datagram).mode is Server
}

/// The reply in a datagram, if it answers the request that carried `nonce`.
pub fn accept_reply(datagram: &[u8], nonce: NtpTimestamp) -> (reply: Option<NtpPacket>)
    ensures
        match reply {
            Some(p) => answers_request(datagram@, nonce) && p == header_of(datagram@),
            None => !answers_request(datagram@, nonce),
        },
{
    match NtpPacket::parse(datagram) {
        Err(_) => None,
        Ok(p) => {
            proof {
                a_header_decodes_one_way(datagram@, p, p);
            }
            if p.origin_ts == nonce && p.mode == Mode::Server {
                Some(p)
            } else {
                None
            }
        },
    }
}

/// Whether a reply's numbers may influence the clock: not a kiss of death, not
/// unsynchronized, and with both of its timestamps.
pub open spec fn is_usable(reply: NtpPacket) -> bool {
    &&& 1 <= reply.stratum <= 15
    &&& !(reply.leap is Unsynchronized)
    &&& reply.transmit_ts.0 != 0
    &&& reply.receive_ts.0 != 0
}

pub fn usable(reply: &NtpPacket) -> (yes: bool)
    ensures
        yes == is_usable(*reply),
{
    reply.stratum != 0 && reply.stratum <= 15 && reply.leap != LeapIndicator::Unsynchronized
        && !reply.transmit_ts.is_zero() && !reply.receive_ts.is_zero()
}

/// Whether a reply announces a leap second.
pub fn announces_leap(reply: &NtpPacket) -> (yes: bool)
    ensures
        yes == (reply.leap is LastMinute61 || reply.leap is LastMinute59),
{
    reply.leap == LeapIndicator::LastMinute61 || reply.leap == LeapIndicator::LastMinute59
}

/// When a reply arrived, on the wall clock and on the monotonic one. The
/// kernel's stamp is taken when the packet reached the stack, the other after we
/// were scheduled: the difference is latency, and is taken off.
pub fn arrival(kernel_ns: Option<i64>, wall_ns: i64, mono_ns: u64) -> (t4: (i64, u64))
    ensures
        t4.0 == match kernel_ns {
            Some(k) => k,
            None => wall_ns,
        },
        t4.1 == ({
            let latency = wall_ns - t4.0;
            if latency <= 0 {
                mono_ns as int
            } else if latency > mono_ns {
                0
            } else {
                mono_ns - latency
            }
        }),
{
    let arrived: i64 = match kernel_ns {
        Some(k) => k,
        None => wall_ns,
    };
    let latency: i128 = wall_ns as i128 - arrived as i128;
    let mono: u64 = if latency <= 0 {
        mono_ns
    } else if latency > mono_ns as i128 {
        0
    } else {
        mono_ns - latency as u64
    };
    (arrived, mono)
}

/// What one exchange measured.
#[derive(Clone, Copy, Debug, PartialEq, Eq, Structural)]
pub struct Measurement {
    /// What to add to the local clock, picoseconds.
    pub offset_ps: i128,
    /// Round-trip delay, picoseconds.
    pub delay_ps: i128,
    /// The server's own claim, picoseconds.
    pub dispersion_ps: u64,
    /// How far off the server can be at most, as far as it and the path tell.
    pub root_distance_ps: i128,
}

/// The timestamp of a wall-clock time in Unix nanoseconds.
pub open spec fn wall_timestamp(unix_ns: int) -> int {
    unix_ticks(unix_ns / (NANOS_PER_SECOND as int), unix_ns % (NANOS_PER_SECOND as int))
}

/// Twice the offset of an exchange, in units of 2^-32 ns: the server's times are
/// `t2` and `t3` ticks after the request left, and the reply arrived `t4`
/// nanoseconds after it.
pub open spec fn doubled_offset(t2: int, t3: int, t4: int) -> int {
    (t2 + t3) * 1_000_000_000 - t4 * 0x1_0000_0000
}

/// The delay of an exchange, in units of 2^-32 ns.
pub open spec fn exact_delay(t2: int, t3: int, t4: int) -> int {
    t4 * 0x1_0000_0000 - (t3 - t2) * 1_000_000_000
}

/// 16.16 fixed-point seconds in picoseconds, rounded down.
pub open spec fn short_ps(short: u32) -> int {
    short * 1_000_000_000_000 / 0x1_0000
}

/// Whether `span` is the era-wrapped span from the tick `from` to `ts`.
pub open spec fn is_span(span: i64, ts: NtpTimestamp, from: int) -> bool {
    (span - (ts.0 - from)) % era_ticks() == 0
}

/// Whether `m` is what an exchange comes to: the server's times are `t2` and `t3`
/// ticks after the request left, and the reply arrived `t4` nanoseconds after it.
pub open spec fn comes_to(
    reply: NtpPacket,
    t2: int,
    t3: int,
    t4: int,
    m: Option<Measurement>,
) -> bool {
    let delay = exact_delay(t2, t3, t4);
    let offset = doubled_offset(t2, t3, t4);
    match m {
        None => delay < 0,
        Some(v) => delay >= 0 && v.offset_ps == toward_zero(offset * 1000, 0x2_0000_0000)
            && v.delay_ps == toward_zero(delay * 1000, 0x1_0000_0000) && v.dispersion_ps
            == short_ps(reply.root_dispersion.0) && v.root_distance_ps == short_ps(
            reply.root_delay.0,
        ) / 2 + short_ps(reply.root_dispersion.0) + v.delay_ps / 2,
    }
}

/// Whether `m` is what an exchange comes to: the request left at `t1`, the reply
/// arrived at `t4`.
pub open spec fn is_measurement(
    reply: NtpPacket,
    t1: int,
    t4: int,
    m: Option<Measurement>,
) -> bool {
    exists|t2: i64, t3: i64|
        #![trigger is_span(t2, reply.receive_ts, wall_timestamp(t1)), is_span(t3, reply.transmit_ts, wall_timestamp(t1))]
        is_span(t2, reply.receive_ts, wall_timestamp(t1)) && is_span(
            t3,
            reply.transmit_ts,
            wall_timestamp(t1),
        ) && comes_to(reply, t2 as int, t3 as int, t4 - t1, m)
}

/// Work out one exchange: the request left at `t1`, the reply arrived at `t4`,
/// both in Unix nanoseconds on the local clock. `None` where the reply would
/// have arrived before it was sent: asymmetric eras or a broken server.
pub fn measure(reply: &NtpPacket, t1: i64, t4: i64) -> (m: Option<Measurement>)
    ensures
        is_measurement(*reply, t1 as int, t4 as int, m),
{
    let unix: i128 = t1 as i128;
    let nanos: i128 = unix % 1_000_000_000;
    let below: i128 = if nanos < 0 { nanos + 1_000_000_000 } else { nanos };
    let secs: i128 = (unix - below) / 1_000_000_000;
    assert(below == t1 as int % 1_000_000_000);
    assert(secs == t1 as int / 1_000_000_000);
    let left: NtpTimestamp = NtpTimestamp::from_unix(secs as i64, below as u32);
    let t2: i64 = reply.receive_ts.seconds_since(left).0;
    let t3: i64 = reply.transmit_ts.seconds_since(left).0;
    let back: i128 = t4 as i128 - t1 as i128;
    assert(is_span(t2, reply.receive_ts, wall_timestamp(t1 as int)));
    assert(is_span(t3, reply.transmit_ts, wall_timestamp(t1 as int)));
    let delay: i128 = back * 0x1_0000_0000 - (t3 as i128 - t2 as i128) * 1_000_000_000;
    if delay < 0 {
        return None;
    }
    let offset: i128 = (t2 as i128 + t3 as i128) * 1_000_000_000 - back * 0x1_0000_0000;
    let offset_ps: i128 = quotient(offset * 1000, 0x2_0000_0000);
    let delay_ps: i128 = quotient(delay * 1000, 0x1_0000_0000);
    let dispersion_ps: u64 = (reply.root_dispersion.0 as u128 * 1_000_000_000_000 / 0x1_0000)
        as u64;
    let root_delay_ps: i128 = (reply.root_delay.0 as u128 * 1_000_000_000_000 / 0x1_0000) as i128;
    let m = Some(
        Measurement {
            offset_ps,
            delay_ps,
            dispersion_ps,
            root_distance_ps: root_delay_ps / 2 + dispersion_ps as i128 + delay_ps / 2,
        },
    );
    assert(comes_to(*reply, t2 as int, t3 as int, t4 - t1, m));
    m
}

/// A reply cannot have arrived before it was sent.
pub proof fn a_measured_delay_is_not_negative(
    reply: NtpPacket,
    t1: int,
    t4: int,
    m: Measurement,
)
    requires
        is_measurement(reply, t1, t4, Some(m)),
    ensures
        m.delay_ps >= 0,
{
}

/// The sample that a measurement makes, taken half way between the two monotonic
/// readings. A delay too long to hold counts as the longest there is.
pub fn sample_of(m: &Measurement, t1_mono: u64, t4_mono: u64) -> (sample: Sample)
    requires
        m.delay_ps >= 0,
    ensures
        sample.t == (t1_mono + t4_mono) / 2,
        sample.offset == m.offset_ps,
        sample.delay == if m.delay_ps > i64::MAX {
            i64::MAX as int
        } else {
            m.delay_ps as int
        },
        sample.dispersion == m.dispersion_ps,
{
    Sample {
        t: ((t1_mono as u128 + t4_mono as u128) / 2) as u64,
        offset: m.offset_ps,
        delay: if m.delay_ps > i64::MAX as i128 { i64::MAX } else { m.delay_ps as i64 },
        dispersion: m.dispersion_ps,
    }
}

/// How far two numbers are apart.
pub open spec fn apart(a: int, b: int) -> nat {
    size(a - b)
}

/// The Unix time, in ticks, of a timestamp of the current era.
pub open spec fn unix_base(ts: NtpTimestamp) -> int {
    ts.0 - UNIX_EPOCH_OFFSET * TICKS_PER_SECOND
}

/// Resolve a timestamp into Unix time near a pivot, both in ticks: the era, of
/// the current one and its neighbours, that comes closest.
pub fn ntp_to_unix_near(ts: NtpTimestamp, pivot: i128) -> (unix: i128)
    requires
        -0x1_0000_0000_0000_0000_0000 <= pivot <= 0x1_0000_0000_0000_0000_0000,
    ensures
        unix == unix_base(ts) || unix == unix_base(ts) - era_ticks() || unix == unix_base(ts)
            + era_ticks(),
        apart(unix as int, pivot as int) <= apart(unix_base(ts), pivot as int),
        apart(unix as int, pivot as int) <= apart(unix_base(ts) - era_ticks(), pivot as int),
        apart(unix as int, pivot as int) <= apart(unix_base(ts) + era_ticks(), pivot as int),
        apart(unix_base(ts), pivot as int) <= apart(unix_base(ts) - era_ticks(), pivot as int)
            && apart(unix_base(ts), pivot as int) <= apart(
            unix_base(ts) + era_ticks(),
            pivot as int,
        ) ==> unix == unix_base(ts),
{
    let base: i128 = ts.0 as i128 - UNIX_EPOCH_OFFSET as i128 * TICKS_PER_SECOND as i128;
    let era: i128 = 0x1_0000_0000_0000_0000;
    let mut best: i128 = base;
    let mut near: i128 = gap(base, pivot);
    let before: i128 = gap(base - era, pivot);
    if before < near {
        best = base - era;
        near = before;
    }
    if gap(base + era, pivot) < near {
        best = base + era;
    }
    best
}

fn gap(a: i128, b: i128) -> (d: i128)
    requires
        -0x2_0000_0000_0000_0000_0000 <= a <= 0x2_0000_0000_0000_0000_0000,
        -0x2_0000_0000_0000_0000_0000 <= b <= 0x2_0000_0000_0000_0000_0000,
    ensures
        d == apart(a as int, b as int),
{
    if a < b {
        b - a
    } else {
        a - b
    }
}

/// A time within half an era of the pivot resolves to itself, whichever era it
/// lies in next to the current one.
pub proof fn near_times_resolve_exactly(ts: NtpTimestamp, truth: int, pivot: int, unix: int)
    requires
        truth == unix_base(ts) || truth == unix_base(ts) - era_ticks() || truth == unix_base(ts)
            + era_ticks(),
        apart(truth, pivot) < 0x8000_0000_0000_0000,
        unix == unix_base(ts) || unix == unix_base(ts) - era_ticks() || unix == unix_base(ts)
            + era_ticks(),
        apart(unix, pivot) <= apart(truth, pivot),
    ensures
        unix == truth,
{
}

/// What the leap indicator is called.
pub open spec fn leap_name(leap: LeapIndicator) -> &'static str {
    match leap {
        LeapIndicator::NoWarning => "no-warning",
        LeapIndicator::LastMinute61 => "last-minute-61",
        LeapIndicator::LastMinute59 => "last-minute-59",
        LeapIndicator::Unsynchronized => "unsynchronized",
    }
}

pub fn leap_str(leap: LeapIndicator) -> (name: &'static str)
    ensures
        name@ == leap_name(leap)@,
{
    match leap {
        LeapIndicator::NoWarning => "no-warning",
        LeapIndicator::LastMinute61 => "last-minute-61",
        LeapIndicator::LastMinute59 => "last-minute-59",
        LeapIndicator::Unsynchronized => "unsynchronized",
    }
}

/// The character a reference id byte is shown as.
pub open spec fn shown(b: u8) -> char {
    if 0x21 <= b <= 0x7e {
        b as char
    } else {
        '?'
    }
}

/// The bytes before the first zero byte, as characters.
pub open spec fn shown_prefix(id: Seq<u8>) -> Seq<char>
    decreases id.len(),
{
    if id.len() == 0 || id[0] == 0 {
        Seq::empty()
    } else {
        seq![shown(id[0])] + shown_prefix(id.drop_first())
    }
}

/// What a reference id is shown as: a name for a primary server that gives one,
/// and eight hex digits otherwise.
pub open spec fn refid_text(stratum: u8, id: Seq<u8>) -> Seq<char> {
    if stratum == 1 && shown_prefix(id).len() > 0 {
        shown_prefix(id)
    } else {
        crate::hex::hex_text(id)
    }
}

pub fn refid_str(stratum: u8, id: [u8; 4]) -> (text: String)
    ensures
        text@ == refid_text(stratum, id@),
{
    if stratum == 1 {
        let mut text: String = String::new();
        let mut i: usize = 0;
        assert(id@.skip(0) =~= id@);
        while i < 4 && id[i] != 0
            invariant
                i <= 4,
                id@.len() == 4,
                shown_prefix(id@) == text@ + shown_prefix(id@.skip(i as int)),
                text@.len() == i,
            decreases 4 - i,
        {
            let b: u8 = id[i];
            let ghost rest = id@.skip(i as int);
            assert(rest[0] == b);
            assert(rest.drop_first() =~= id@.skip(i + 1));
            text.push(if 0x21 <= b && b <= 0x7e { b as char } else { '?' });
            assert(shown_prefix(id@) =~= text@ + shown_prefix(id@.skip(i + 1)));
            i = i + 1;
        }
        proof {
            if i < 4 {
                assert(id@.skip(i as int)[0] == 0);
            }
            assert(shown_prefix(id@.skip(i as int)) =~= Seq::empty());
            assert(shown_prefix(id@) =~= text@);
        }
        if i > 0 {
            return text;
        }
    }
    crate::hex::hex(id.as_slice())
}

/// What selection knows of one configured source.
#[derive(Clone, Copy, Debug, PartialEq, Eq, Structural)]
pub struct SourceStatus {
    pub has_estimate: bool,
    /// Nanoseconds.
    pub offset: i64,
    /// Nanoseconds.
    pub root_distance: i64,
    pub stratum: u8,
}

/// The estimates of the first `n` sources that have one, by the source's number.
pub open spec fn estimates_of(sources: Seq<SourceStatus>, n: nat) -> Seq<SourceEstimate>
    decreases n,
{
    if n == 0 {
        Seq::empty()
    } else if sources[n - 1].has_estimate {
        estimates_of(sources, (n - 1) as nat).push(
            SourceEstimate {
                id: (n - 1) as usize,
                offset: sources[n - 1].offset,
                root_distance: if sources[n - 1].root_distance < 1 {
                    1
                } else {
                    sources[n - 1].root_distance
                },
                stratum: sources[n - 1].stratum,
            },
        )
    } else {
        estimates_of(sources, (n - 1) as nat)
    }
}

/// Which source should drive the clock: the best of those that the majority
/// agreement leaves.
pub fn selected_index(sources: &[SourceStatus]) -> (selected: Option<usize>)
    ensures
        ({
            let found = estimates_of(sources@, sources@.len());
            match selected {
                Some(i) => exists|lo: int, hi: int, picked: Seq<int>| #[trigger]
                    lists_survivors(found, lo, hi, picked) && best_agreement(found, lo, hi)
                        && picked.len() > 0 && i == found[picked[0]].id,
                None => no_majority(found),
            }
        }),
{
    let mut found: Vec<SourceEstimate> = Vec::new();
    let mut i: usize = 0;
    while i < sources.len()
        invariant
            i <= sources@.len(),
            found@.len() <= i,
            found@ == estimates_of(sources@, i as nat),
        decreases sources@.len() - i,
    {
        let s: SourceStatus = sources[i];
        if s.has_estimate {
            found.push(
                SourceEstimate {
                    id: i,
                    offset: s.offset,
                    root_distance: if s.root_distance < 1 { 1 } else { s.root_distance },
                    stratum: s.stratum,
                },
            );
        }
        i = i + 1;
    }
    let selection: Selection = select(found.as_slice());
    match selection.interval {
        None => None,
        Some((lo, hi)) => {
            let ghost picked = choose|picked: Seq<int>| #[trigger]
                lists_survivors(found@, lo as int, hi as int, picked)
                    && selection.truechimers@ == picked.map_values(|i: int| found@[i].id);
            proof {
                assert(names_survivors(found@, lo as int, hi as int, selection.truechimers@));
                crate::select::the_survivors_are_a_largest_clique(
                    found@,
                    lo as int,
                    hi as int,
                    picked,
                );
            }
            Some(selection.truechimers[0])
        },
    }
}

} // verus!
