//! Platform slew arithmetic, with no platform in it. Each system exposes a
//! different knob: Linux takes a frequency in 2^-16 parts per million and a tick
//! length, Windows takes a per-interrupt increment, macOS takes a one-shot offset
//! and has no frequency knob at all. Frequencies are in parts per quadrillion,
//! times in picoseconds.

use vstd::prelude::*;

use crate::arith::{quotient, size, toward_zero, within};

verus! {

/// Cap on how far ahead a single macOS correction is projected: 1024 s.
pub const MACOS_MAX_HORIZON_S: u64 = 1024;

/// The kernel's hard ceiling on its frequency knob: 500 parts per million.
pub const LINUX_MAX_ADJ_FREQ_PPQ: i64 = 500_000_000_000;

/// One part in one, in parts per quadrillion.
pub const WHOLE: i128 = 1_000_000_000_000_000;

/// A sum held within the range of the type.
pub open spec fn saturated(x: int) -> i128 {
    if x > i128::MAX {
        i128::MAX
    } else if x < i128::MIN {
        i128::MIN
    } else {
        x as i128
    }
}

/// Net frequency of a frequency term and a drain, as far as the platform goes.
pub open spec fn net_ppq(freq_ppq: int, drain_offset_ps: int, rate_ppq: int, max_ppq: int) -> int {
    within(
        if drain_offset_ps < 0 {
            freq_ppq - rate_ppq
        } else {
            freq_ppq + rate_ppq
        },
        max_ppq,
    )
}

/// Net frequency a driver should command: the frequency term plus the rate at
/// which an offset is drained, signed by the direction of the drain, held to
/// what the platform will accept.
pub fn total_ppq(freq_ppq: i64, drain_offset_ps: i128, drain_rate_ppq: u64, max_ppq: u64) -> (total:
    i128)
    ensures
        total == net_ppq(
            freq_ppq as int,
            drain_offset_ps as int,
            drain_rate_ppq as int,
            max_ppq as int,
        ),
{
    let drain: i128 = if drain_offset_ps < 0 {
        -(drain_rate_ppq as i128)
    } else {
        drain_rate_ppq as i128
    };
    let sum: i128 = freq_ppq as i128 + drain;
    let max: i128 = max_ppq as i128;
    if sum > max {
        max
    } else if sum < -max {
        -max
    } else {
        sum
    }
}

/// How far the kernel lets a tick be moved from nominal: a tenth of it.
pub open spec fn tick_room(nominal_tick_us: int) -> int {
    nominal_tick_us / 10
}

/// The widest correction that tick and frequency knob reach together, times the
/// nominal tick.
pub open spec fn reach(nominal_tick_us: int) -> int {
    tick_room(nominal_tick_us) * WHOLE + LINUX_MAX_ADJ_FREQ_PPQ * nominal_tick_us
}

/// A number divided by `d` and rounded to the nearest, halves away from zero.
pub open spec fn rounded(x: int, d: int) -> int {
    if x < 0 {
        -((-2 * x + d) / (2 * d))
    } else {
        (2 * x + d) / (2 * d)
    }
}

/// A wanted frequency split into how far to move the tick, in microseconds, and
/// what is left for the frequency knob. The tick is left alone unless the
/// frequency knob genuinely cannot cover the request.
pub open spec fn tick_and_freq(total_ppq: int, nominal_tick_us: int) -> (int, int) {
    let limit = LINUX_MAX_ADJ_FREQ_PPQ as int;
    if nominal_tick_us <= 0 {
        (0, within(total_ppq, limit))
    } else {
        // Everything times the nominal tick: moving the tick by one microsecond
        // is worth a whole part over the nominal tick.
        let wanted = within(total_ppq * nominal_tick_us, reach(nominal_tick_us));
        let moved = if size(wanted) > limit * nominal_tick_us {
            within(rounded(wanted, WHOLE as int), tick_room(nominal_tick_us))
        } else {
            0
        };
        (moved, within(toward_zero(wanted - moved * WHOLE, nominal_tick_us), limit))
    }
}

/// Split a wanted frequency into a tick length, in microseconds, and the
/// residual for the frequency knob, which is always inside the kernel's limit.
pub fn linux_tick_and_freq(total_ppq: i64, nominal_tick_us: i64) -> (split: (i64, i64))
    requires
        nominal_tick_us + tick_and_freq(total_ppq as int, nominal_tick_us as int).0 <= i64::MAX,
    ensures
        split.0 == nominal_tick_us + tick_and_freq(total_ppq as int, nominal_tick_us as int).0,
        split.1 == tick_and_freq(total_ppq as int, nominal_tick_us as int).1,
        nominal_tick_us >= 0 ==> size(split.0 - nominal_tick_us) <= tick_room(
            nominal_tick_us as int,
        ),
        size(split.1 as int) <= LINUX_MAX_ADJ_FREQ_PPQ,
{
    let limit: i128 = LINUX_MAX_ADJ_FREQ_PPQ as i128;
    if nominal_tick_us <= 0 {
        return (nominal_tick_us, hold(total_ppq as i128, limit) as i64);
    }
    let nominal: i128 = nominal_tick_us as i128;
    let room: i128 = nominal / 10;
    proof {
        assert(-0x4000_0000_0000_0000_0000_0000_0000_0000 <= total_ppq * nominal
            <= 0x4000_0000_0000_0000_0000_0000_0000_0000) by (nonlinear_arith)
            requires
                -0x8000_0000_0000_0000 <= total_ppq <= 0x7fff_ffff_ffff_ffff,
                1 <= nominal <= 0x7fff_ffff_ffff_ffff,
        ;
    }
    let reachable: i128 = room * WHOLE + limit * nominal;
    let wanted: i128 = hold(total_ppq as i128 * nominal, reachable);
    let large: bool = wanted > limit * nominal || wanted < -(limit * nominal);
    let moved: i128 = if large {
        hold(nearest(wanted), room)
    } else {
        0
    };
    let left: i128 = quotient(wanted - moved * WHOLE, nominal);
    let residual: i128 = hold(left, limit);
    (nominal_tick_us + moved as i64, residual as i64)
}

/// A number held within `limit` of zero.
fn hold(x: i128, limit: i128) -> (held: i128)
    requires
        limit >= 0,
    ensures
        held == within(x as int, limit as int),
        size(held as int) <= limit,
{
    if x > limit {
        limit
    } else if x < -limit {
        -limit
    } else {
        x
    }
}

/// Whole parts, rounded to the nearest.
fn nearest(x: i128) -> (n: i128)
    requires
        size(x as int) <= 0x3fff_ffff_ffff_ffff_ffff_ffff_ffff,
    ensures
        n == rounded(x as int, WHOLE as int),
{
    if x < 0 {
        -((-2 * x + WHOLE) / (2 * WHOLE))
    } else {
        (2 * x + WHOLE) / (2 * WHOLE)
    }
}

/// The widest frequency this kernel can actually be driven at, given its tick.
pub fn linux_max_slew_ppq(nominal_tick_us: i64) -> (max: i64)
    ensures
        max == if nominal_tick_us <= 0 {
            LINUX_MAX_ADJ_FREQ_PPQ as int
        } else {
            reach(nominal_tick_us as int) / (nominal_tick_us as int)
        },
{
    if nominal_tick_us <= 0 {
        return LINUX_MAX_ADJ_FREQ_PPQ;
    }
    let nominal: i128 = nominal_tick_us as i128;
    let reachable: i128 = (nominal / 10) * WHOLE + LINUX_MAX_ADJ_FREQ_PPQ as i128 * nominal;
    proof {
        let most: int = 100_500_000_000_000;
        assert(reachable <= most * nominal);
        assert(0 <= reachable as int / nominal as int <= most) by (nonlinear_arith)
            requires
                0 <= reachable <= most * nominal,
                nominal > 0,
        ;
    }
    (reachable / nominal) as i64
}

/// One interrupt's worth of time under a frequency correction, rounded down, as far
/// as it can be held.
pub open spec fn scaled_increment(increment: int, total_ppq: int) -> int {
    if total_ppq <= -WHOLE {
        0
    } else if increment * (WHOLE + total_ppq) / (WHOLE as int) > u64::MAX {
        u64::MAX as int
    } else {
        increment * (WHOLE + total_ppq) / (WHOLE as int)
    }
}

/// The increment of the Windows clock under a frequency correction: one
/// interrupt's worth scaled by it. Held at zero, since a clock can be slowed to
/// a stop but never run backwards, and at the largest value.
pub fn windows_adjustment(increment: u64, total_ppq: i64) -> (adjustment: u64)
    ensures
        adjustment == scaled_increment(increment as int, total_ppq as int),
{
    let scale: i128 = WHOLE + total_ppq as i128;
    if scale <= 0 {
        return 0;
    }
    proof {
        assert(0 <= increment * scale <= 0xffff_ffff_ffff_ffff * 0x8003_8d7e_a4c6_7fff)
            by (nonlinear_arith)
            requires
                0 <= increment <= 0xffff_ffff_ffff_ffff,
                0 < scale <= 0x8003_8d7e_a4c6_7fff,
        ;
    }
    let scaled: u128 = increment as u128 * scale as u128 / WHOLE as u128;
    if scaled > u64::MAX as u128 {
        u64::MAX
    } else {
        scaled as u64
    }
}

/// The frequency term of a macOS correction, projected over the time that the
/// drain takes, which is bounded.
pub open spec fn projected(freq_ppq: int, drain_offset_ps: int, drain_rate_ppq: int) -> int {
    if drain_rate_ppq <= 0 {
        0
    } else if size(drain_offset_ps) * 1000 > MACOS_MAX_HORIZON_S * drain_rate_ppq {
        toward_zero(freq_ppq * MACOS_MAX_HORIZON_S, 1000)
    } else {
        toward_zero(freq_ppq * size(drain_offset_ps), drain_rate_ppq)
    }
}

/// The correction that stands for a drain and a frequency term together.
pub open spec fn one_shot(freq_ppq: int, drain_offset_ps: int, drain_rate_ppq: int) -> i128 {
    saturated(drain_offset_ps + projected(freq_ppq, drain_offset_ps, drain_rate_ppq))
}

/// The correction to hand macOS for one plan, in picoseconds. Without a
/// frequency knob, a frequency is expressed as the offset that it will have
/// accumulated by the time the offset is drained.
pub fn macos_adjtime_amount(freq_ppq: i64, drain_offset_ps: i128, drain_rate_ppq: u64) -> (amount:
    i128)
    ensures
        amount == one_shot(freq_ppq as int, drain_offset_ps as int, drain_rate_ppq as int),
{
    if drain_rate_ppq == 0 {
        return drain_offset_ps;
    }
    let span: u128 = 1024u128 * drain_rate_ppq as u128 / 1000;
    let far: u128 = if drain_offset_ps < 0 {
        (-(drain_offset_ps + 1)) as u128 + 1
    } else {
        drain_offset_ps as u128
    };
    let pace: u128 = if freq_ppq < 0 { (-(freq_ppq as i128)) as u128 } else { freq_ppq as u128 };
    assert(MACOS_MAX_HORIZON_S == 1024);
    let gained: u128 = if far > span {
        pace * 1024 / 1000
    } else {
        let rate: u128 = drain_rate_ppq as u128;
        proof {
            assert(0 <= pace * far <= 0x8000_0000_0000_0000 * 18_889_465_931_478_580_853)
                by (nonlinear_arith)
                requires
                    0 <= pace <= 0x8000_0000_0000_0000,
                    0 <= far <= 18_889_465_931_478_580_853,
            ;
            assert(0 <= pace * far / (rate as int) <= 2 * pace) by (nonlinear_arith)
                requires
                    0 <= pace,
                    0 <= far <= 2 * rate,
                    rate > 0,
            ;
        }
        pace * far / rate
    };
    let term: i128 = if freq_ppq < 0 { -(gained as i128) } else { gained as i128 };
    proof {
        let d = size(drain_offset_ps as int) as int;
        assert(-(freq_ppq * d) == (-freq_ppq) * d) by (nonlinear_arith);
        assert(freq_ppq < 0 ==> freq_ppq * d <= 0) by (nonlinear_arith)
            requires
                d >= 0,
        ;
        assert(freq_ppq >= 0 ==> freq_ppq * d >= 0) by (nonlinear_arith)
            requires
                d >= 0,
        ;
        assert(0int / (drain_rate_ppq as int) == 0) by (nonlinear_arith)
            requires
                drain_rate_ppq > 0,
        ;
        assert(term == projected(
            freq_ppq as int,
            drain_offset_ps as int,
            drain_rate_ppq as int,
        ));
    }
    match drain_offset_ps.checked_add(term) {
        Some(amount) => amount,
        None => if term > 0 {
            i128::MAX
        } else {
            i128::MIN
        },
    }
}

/// Seconds and nanoseconds of a time in nanoseconds, the latter never negative.
pub fn seconds_and_nanos(ns: i128) -> (parts: (i128, u32))
    ensures
        parts.0 * 1_000_000_000 + parts.1 == ns,
        parts.1 < 1_000_000_000,
{
    let low: i128 = ns % 1_000_000_000;
    let high: i128 = ns / 1_000_000_000;
    if low < 0 {
        (high - 1, (low + 1_000_000_000) as u32)
    } else {
        (high, low as u32)
    }
}

/// A frequency in units of 2^-16 parts per million, toward zero.
pub open spec fn knob_units(total_ppq: int) -> int {
    toward_zero(total_ppq * 65_536, 1_000_000_000)
}

/// A frequency in the unit of the Linux frequency knob, 2^-16 parts per million.
pub fn linux_freq_units(total_ppq: i64) -> (units: i64)
    ensures
        units == knob_units(total_ppq as int),
{
    quotient(total_ppq as i128 * 65_536, 1_000_000_000) as i64
}

pub(crate) proof fn lemma_toward_zero(x: int, d: int)
    requires
        d > 0,
    ensures
        size(x - toward_zero(x, d) * d) < d,
        size(toward_zero(x, d) * d) <= size(x),
        x >= 0 ==> toward_zero(x, d) >= 0,
        x <= 0 ==> toward_zero(x, d) <= 0,
{
    if x < 0 {
        let y = -x;
        assert(y - (y / d) * d == y % d && 0 <= y % d < d && y / d >= 0 && (y / d) * d >= 0)
            by (nonlinear_arith)
            requires
                y >= 0,
                d > 0,
        ;
        assert((-(y / d)) * d == -((y / d) * d)) by (nonlinear_arith);
    } else {
        assert(x - (x / d) * d == x % d && 0 <= x % d < d && x / d >= 0 && (x / d) * d >= 0)
            by (nonlinear_arith)
            requires
                x >= 0,
                d > 0,
        ;
    }
}

proof fn lemma_quotient_within(x: int, d: int, limit: int)
    requires
        d > 0,
        limit >= 0,
        size(x) <= limit * d,
    ensures
        size(toward_zero(x, d)) <= limit,
{
    let q = toward_zero(x, d);
    lemma_toward_zero(x, d);
    assert(size(q) <= limit) by {
        if q > limit {
            assert(q * d > limit * d) by (nonlinear_arith)
                requires
                    q > limit,
                    d > 0,
            ;
        } else if q < -limit {
            assert(q * d < -(limit * d)) by (nonlinear_arith)
                requires
                    q < -limit,
                    d > 0,
            ;
        }
    }
}

/// What the frequency knob covers alone is left to it entirely: the tick stays
/// where it is, and the residual is the request.
pub proof fn small_corrections_leave_the_tick_alone(total_ppq: int, nominal_tick_us: int)
    requires
        size(total_ppq) <= LINUX_MAX_ADJ_FREQ_PPQ,
    ensures
        tick_and_freq(total_ppq, nominal_tick_us) == (0int, total_ppq),
{
    let n = nominal_tick_us;
    let limit = LINUX_MAX_ADJ_FREQ_PPQ as int;
    if n > 0 {
        assert(-(limit * n) <= total_ppq * n <= limit * n) by (nonlinear_arith)
            requires
                -limit <= total_ppq <= limit,
                n > 0,
        ;
        assert(toward_zero(total_ppq * n, n) == total_ppq) by {
            lemma_toward_zero(total_ppq * n, n);
            let q = toward_zero(total_ppq * n, n);
            assert(total_ppq * n - q * n == (total_ppq - q) * n) by (nonlinear_arith);
            assert(total_ppq == q) by (nonlinear_arith)
                requires
                    -n < (total_ppq - q) * n < n,
                    n > 0,
            ;
        }
    }
}

/// What the driver commands is what was asked for, as far as tick and frequency
/// knob reach together: the two differ by less than one part per quadrillion.
/// A tick of under a millisecond is left out: there one microsecond of tick is
/// worth more than the frequency knob covers.
pub proof fn large_corrections_are_delivered_in_full(total_ppq: int, nominal_tick_us: int)
    requires
        nominal_tick_us >= 1000,
    ensures
        ({
            let (moved, residual) = tick_and_freq(total_ppq, nominal_tick_us);
            let wanted = within(total_ppq * nominal_tick_us, reach(nominal_tick_us));
            size(moved * WHOLE + residual * nominal_tick_us - wanted) < nominal_tick_us
        }),
{
    let n = nominal_tick_us;
    let limit = LINUX_MAX_ADJ_FREQ_PPQ as int;
    let whole = WHOLE as int;
    let wanted = within(total_ppq * n, reach(n));
    let (moved, residual) = tick_and_freq(total_ppq, n);
    let left = wanted - moved * whole;
    assert(size(left) <= limit * n) by {
        let room = tick_room(n);
        let near = rounded(wanted, whole);
        assert(whole == 1_000_000_000_000_000 && limit == 500_000_000_000);
        assert(-(whole / 2) <= wanted - near * whole <= whole / 2) by {
            let y = if wanted < 0 {
                -wanted
            } else {
                wanted
            };
            let q = (2 * y + whole) / (2 * whole);
            assert(near == if wanted < 0 {
                -q
            } else {
                q
            });
            assert(-(whole / 2) <= y - q * whole <= whole / 2);
        }
        assert(reach(n) == room * whole + limit * n);
        assert(-reach(n) <= wanted <= reach(n));
        assert(limit * n >= whole / 2);
        if size(wanted) > limit * n {
            if near > room {
                assert(moved == room);
            } else if near < -room {
                assert(moved == -room);
            } else {
                assert(moved == near);
            }
        }
    }
    lemma_quotient_within(left, n, limit);
    lemma_toward_zero(left, n);
}

/// The ceiling that is advertised is one that can be reached: asked for it, the
/// driver delivers it, to less than one part per quadrillion.
pub proof fn the_advertised_ceiling_can_be_reached(nominal_tick_us: int)
    requires
        nominal_tick_us >= 1000,
    ensures
        ({
            let ceiling = reach(nominal_tick_us) / nominal_tick_us;
            let (moved, residual) = tick_and_freq(ceiling, nominal_tick_us);
            size(moved * WHOLE + residual * nominal_tick_us - ceiling * nominal_tick_us)
                < nominal_tick_us
        }),
{
    let n = nominal_tick_us;
    let r = reach(n);
    large_corrections_are_delivered_in_full(r / n, n);
    assert(0 <= (r / n) * n <= r) by (nonlinear_arith)
        requires
            r >= 0,
            n > 0,
    ;
}

/// However slow the drain, the frequency term is projected over a bounded time.
pub proof fn a_projection_is_bounded(freq_ppq: int, drain_offset_ps: int, drain_rate_ppq: int)
    ensures
        size(projected(freq_ppq, drain_offset_ps, drain_rate_ppq)) * 1000 <= size(freq_ppq)
            * MACOS_MAX_HORIZON_S,
{
    let d = size(drain_offset_ps) as int;
    let f = size(freq_ppq) as int;
    if drain_rate_ppq > 0 {
        if d * 1000 > 1024 * drain_rate_ppq {
            lemma_toward_zero(freq_ppq * 1024, 1000);
        } else {
            let q = projected(freq_ppq, drain_offset_ps, drain_rate_ppq);
            lemma_toward_zero(freq_ppq * d, drain_rate_ppq);
            assert(size(freq_ppq * d) == f * d) by (nonlinear_arith)
                requires
                    d >= 0,
                    f == size(freq_ppq),
            ;
            assert(size(q * drain_rate_ppq) == size(q) * drain_rate_ppq) by (nonlinear_arith)
                requires
                    drain_rate_ppq > 0,
            ;
            let s = size(q) as int;
            assert(s * 1000 <= f * 1024) by (nonlinear_arith)
                requires
                    s * drain_rate_ppq <= f * d,
                    d * 1000 <= 1024 * drain_rate_ppq,
                    drain_rate_ppq > 0,
                    f >= 0,
                    s >= 0,
            ;
        }
    }
}

} // verus!
