//! What an exchange measures: by how much the server's clock is ahead of ours,
//! behind counting below zero, and how long the packets were on their way.
//!
//! Times here are counted in units of 2^-32 ns, in which a nanosecond is 2^32 and
//! a tick of a timestamp is 10^9, so both are whole numbers.

use vstd::prelude::*;

use crate::arith::toward_zero;
use crate::exchange::{
    comes_to, doubled_offset, exact_delay, is_measurement, is_span, wall_timestamp, Measurement,
};
use crate::ntp::{era_ticks, span_is_exact_within_half_an_era, NtpPacket};

verus! {

/// A wall-clock time in Unix nanoseconds, counted from 1900 in units of 2^-32 ns.
pub open spec fn since_1900(unix_ns: int) -> int {
    (unix_ns + 2_208_988_800_000_000_000) * 0x1_0000_0000
}

/// Whether a tick lies within 34 years of a wall-clock time, so that no era has to
/// be guessed.
pub open spec fn near(tick: int, unix_ns: int) -> bool {
    -0x4000_0000_0000_0000 * 1_000_000_000 <= tick * 1_000_000_000 - since_1900(unix_ns)
        <= 0x4000_0000_0000_0000 * 1_000_000_000
}

/// The tick that a wall-clock time falls in, counted from 1900 through all eras.
pub(crate) open(crate) spec fn tick_of(unix_ns: int) -> int {
    (unix_ns / 1_000_000_000 + 2_208_988_800) * 0x1_0000_0000 + (unix_ns % 1_000_000_000)
        * 0x1_0000_0000 / 1_000_000_000
}

pub(crate) proof fn lemma_tick(unix_ns: int)
    ensures
        wall_timestamp(unix_ns) == tick_of(unix_ns) % era_ticks(),
        since_1900(unix_ns) - 1_000_000_000 < tick_of(unix_ns) * 1_000_000_000 <= since_1900(
            unix_ns,
        ),
{
    let q = unix_ns / 1_000_000_000 + 2_208_988_800;
    let r = (unix_ns % 1_000_000_000) * 0x1_0000_0000 / 1_000_000_000;
    assert(0 <= r < 0x1_0000_0000);
    assert(unix_ns == (unix_ns / 1_000_000_000) * 1_000_000_000 + unix_ns % 1_000_000_000);
    vstd::arithmetic::div_mod::lemma_fundamental_div_mod(q, 0x1_0000_0000);
    let e = q / 0x1_0000_0000;
    let w = (q % 0x1_0000_0000) * 0x1_0000_0000 + r;
    assert(q * 0x1_0000_0000 + r == w + 0x1_0000_0000_0000_0000 * e);
    vstd::arithmetic::div_mod::lemma_mod_multiples_vanish(e, w, 0x1_0000_0000_0000_0000);
    assert(r % 0x1_0000_0000 == r);
}

/// The span from our own time to a server's tick, however the eras lie.
proof fn lemma_span(span: i64, ts: crate::ntp::NtpTimestamp, tick: int, t1: int)
    requires
        is_span(span, ts, wall_timestamp(t1)),
        ts.0 == tick % 0x1_0000_0000_0000_0000,
        near(tick, t1),
    ensures
        span == tick - tick_of(t1),
        since_1900(t1) <= (tick - span) * 1_000_000_000 + 1_000_000_000,
        (tick - span) * 1_000_000_000 <= since_1900(t1),
{
    lemma_tick(t1);
    span_is_exact_within_half_an_era(tick_of(t1), tick, span);
}

proof fn lemma_rounding(x: int, d: int)
    requires
        d > 0,
    ensures
        -d < toward_zero(x, d) * d - x < d,
{
    let y = if x < 0 {
        -x
    } else {
        x
    };
    vstd::arithmetic::div_mod::lemma_fundamental_div_mod(y, d);
    let q = y / d;
    assert(d * q == q * d && (-q) * d == -(q * d)) by (nonlinear_arith);
}

/// An exchange measures how far the server's clock is ahead of ours. The request
/// leaves at `t1` and travels for `out`; the server, whose clock reads `theta`
/// more than ours, keeps it for `hold`; the reply travels for `back` and arrives
/// at `t4`. Then the exchange is measured, the offset is `theta`, and wrong by
/// half of what the two ways differ by, and the delay is what the packets
/// travelled, both to within a nanosecond. `received` and `sent` are what the
/// server's clock read, in ticks from 1900, to within two ticks.
pub proof fn an_exchange_measures_the_clocks(
    reply: NtpPacket,
    t1: int,
    t4: int,
    m: Option<Measurement>,
    received: int,
    sent: int,
    theta: int,
    out: int,
    hold: int,
    back: int,
)
    requires
        is_measurement(reply, t1, t4, m),
        reply.receive_ts.0 == received % 0x1_0000_0000_0000_0000,
        reply.transmit_ts.0 == sent % 0x1_0000_0000_0000_0000,
        -2_000_000_000 <= received * 1_000_000_000 - (since_1900(t1) + out + theta)
            <= 2_000_000_000,
        -2_000_000_000 <= sent * 1_000_000_000 - (since_1900(t1) + out + hold + theta)
            <= 2_000_000_000,
        (t4 - t1) * 0x1_0000_0000 == out + hold + back,
        out + back >= 4_000_000_000,
        near(received, t1) && near(sent, t1),
    ensures
        m is Some,
        -2000 * 0x1_0000_0000 < 2 * m->Some_0.offset_ps * 0x1_0000_0000 - (2 * theta + out - back)
            * 1000 < 2000 * 0x1_0000_0000,
        -1000 * 0x1_0000_0000 < m->Some_0.delay_ps * 0x1_0000_0000 - (out + back) * 1000 < 1000
            * 0x1_0000_0000,
{
    let (t2, t3) = choose|t2: i64, t3: i64|
        #![trigger is_span(t2, reply.receive_ts, wall_timestamp(t1)), is_span(t3, reply.transmit_ts, wall_timestamp(t1))]
        is_span(t2, reply.receive_ts, wall_timestamp(t1)) && is_span(
            t3,
            reply.transmit_ts,
            wall_timestamp(t1),
        ) && comes_to(reply, t2 as int, t3 as int, t4 - t1, m);
    lemma_span(t2, reply.receive_ts, received, t1);
    lemma_span(t3, reply.transmit_ts, sent, t1);
    let gap = t4 - t1;
    let from = since_1900(t1);
    // How far the spans are from what the clocks say.
    let e2 = t2 * 1_000_000_000 - (out + theta);
    let e3 = t3 * 1_000_000_000 - (out + hold + theta);
    assert(-2_000_000_000 <= e2 <= 3_000_000_000 && -2_000_000_000 <= e3 <= 3_000_000_000);
    let e = sent * 1_000_000_000 - received * 1_000_000_000 - hold;
    assert(t3 - t2 == sent - received);
    let delay = exact_delay(t2 as int, t3 as int, gap);
    let offset = doubled_offset(t2 as int, t3 as int, gap);
    assert(delay == out + back - e);
    assert(offset == 2 * theta + out - back + e2 + e3);
    lemma_rounding(offset * 1000, 0x2_0000_0000);
    lemma_rounding(delay * 1000, 0x1_0000_0000);
}

/// The offset follows the server's clock, whichever way it moves: of two
/// exchanges that differ only in that the server's times are `d` ticks earlier in
/// one than in the other, its offset is `d` ticks lower, to within a rounding, and
/// the delay is the same.
pub proof fn an_earlier_server_measures_lower(
    reply: NtpPacket,
    earlier: NtpPacket,
    t1: int,
    t4: int,
    m: Measurement,
    n: Measurement,
    received: int,
    sent: int,
    d: int,
)
    requires
        is_measurement(reply, t1, t4, Some(m)),
        is_measurement(earlier, t1, t4, Some(n)),
        reply.receive_ts.0 == received % 0x1_0000_0000_0000_0000,
        reply.transmit_ts.0 == sent % 0x1_0000_0000_0000_0000,
        earlier.receive_ts.0 == (received - d) % 0x1_0000_0000_0000_0000,
        earlier.transmit_ts.0 == (sent - d) % 0x1_0000_0000_0000_0000,
        near(received, t1) && near(sent, t1) && near(received - d, t1) && near(sent - d, t1),
    ensures
        -2 * 0x1_0000_0000 < (m.offset_ps - n.offset_ps) * 0x1_0000_0000 - d * 1_000_000_000 * 1000
            < 2 * 0x1_0000_0000,
        m.delay_ps == n.delay_ps,
{
    let (t2, t3) = choose|t2: i64, t3: i64|
        #![trigger is_span(t2, reply.receive_ts, wall_timestamp(t1)), is_span(t3, reply.transmit_ts, wall_timestamp(t1))]
        is_span(t2, reply.receive_ts, wall_timestamp(t1)) && is_span(
            t3,
            reply.transmit_ts,
            wall_timestamp(t1),
        ) && comes_to(reply, t2 as int, t3 as int, t4 - t1, Some(m));
    let (u2, u3) = choose|t2: i64, t3: i64|
        #![trigger is_span(t2, earlier.receive_ts, wall_timestamp(t1)), is_span(t3, earlier.transmit_ts, wall_timestamp(t1))]
        is_span(t2, earlier.receive_ts, wall_timestamp(t1)) && is_span(
            t3,
            earlier.transmit_ts,
            wall_timestamp(t1),
        ) && comes_to(earlier, t2 as int, t3 as int, t4 - t1, Some(n));
    assert(near(received, t1) && near(sent, t1) && near(received - d, t1) && near(sent - d, t1));
    lemma_span(t2, reply.receive_ts, received, t1);
    lemma_span(t3, reply.transmit_ts, sent, t1);
    lemma_span(u2, earlier.receive_ts, received - d, t1);
    lemma_span(u3, earlier.transmit_ts, sent - d, t1);
    let x = doubled_offset(t2 as int, t3 as int, t4 - t1);
    let y = doubled_offset(u2 as int, u3 as int, t4 - t1);
    assert(x - y == 2 * d * 1_000_000_000);
    lemma_rounding(x * 1000, 0x2_0000_0000);
    lemma_rounding(y * 1000, 0x2_0000_0000);
}

/// How far a measurement may be wrong: its dispersion is the server's, in seconds of 2^16
/// parts, and its root distance half the delay to the root and half that of the exchange
/// with the dispersion, each rounded down by a picosecond at most.
pub proof fn a_measurement_says_how_far_it_may_be_wrong(
    reply: NtpPacket,
    t1: int,
    t4: int,
    v: Measurement,
)
    requires
        is_measurement(reply, t1, t4, Some(v)),
    ensures
        0 <= reply.root_dispersion.0 * 1_000_000_000_000 - v.dispersion_ps * 0x1_0000 < 0x1_0000,
        0 <= (reply.root_delay.0 + 2 * reply.root_dispersion.0) * 1_000_000_000_000 + v.delay_ps
            * 0x1_0000 - 2 * v.root_distance_ps * 0x1_0000 < 5 * 0x1_0000,
        v.delay_ps >= 0,
{
    let (t2, t3) = choose|t2: i64, t3: i64|
        #![trigger is_span(t2, reply.receive_ts, wall_timestamp(t1)), is_span(t3, reply.transmit_ts, wall_timestamp(t1))]
        is_span(t2, reply.receive_ts, wall_timestamp(t1)) && is_span(
            t3,
            reply.transmit_ts,
            wall_timestamp(t1),
        ) && comes_to(reply, t2 as int, t3 as int, t4 - t1, Some(v));
    assert(comes_to(reply, t2 as int, t3 as int, t4 - t1, Some(v)));
}

} // verus!
