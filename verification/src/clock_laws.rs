//! What the clock drivers deliver: the correction that was asked for, in its
//! direction, in whatever knobs the platform has.

use vstd::prelude::*;

use crate::arith::{size, within};
use crate::discipline::ClockCommand;
use crate::slew::{
    knob_units, lemma_toward_zero, net_ppq, one_shot, scaled_increment, tick_and_freq,
};
use crate::vclock::{clock_step, driven, since, ClockEvent, VirtualClock, VirtualDriver};

verus! {

/// A drain speeds the clock up where it is to be ahead, and slows it down where it is
/// to be behind, by its rate, beside the frequency, and never beyond what the platform
/// takes.
pub proof fn a_drain_pulls_its_way(freq: int, offset: int, rate: int, max: int)
    requires
        rate >= 0,
        max >= 0,
    ensures
        -max <= net_ppq(freq, offset, rate, max) <= max,
        offset > 0 && -max <= freq + rate <= max ==> net_ppq(freq, offset, rate, max) == freq
            + rate,
        offset < 0 && -max <= freq - rate <= max ==> net_ppq(freq, offset, rate, max) == freq
            - rate,
        offset > 0 && freq + rate > max ==> net_ppq(freq, offset, rate, max) == max,
        offset < 0 && freq - rate < -max ==> net_ppq(freq, offset, rate, max) == -max,
        offset == 0 && -max <= freq + rate <= max ==> net_ppq(freq, offset, rate, max) == freq
            + rate,
        offset != 0 ==> net_ppq(-freq, -offset, rate, max) == -net_ppq(freq, offset, rate, max),
        rate == 0 && -max <= freq <= max ==> net_ppq(freq, offset, rate, max) == freq,
{
}

/// What Linux is told is what was asked for: a frequency within 500 parts per million
/// is left to its knob entire, and a larger one, up to a tenth of the tick beyond, is
/// split between tick and knob so that the two together make it to less than one part
/// in 10^15. Neither is told more than it takes.
pub proof fn tick_and_knob_make_the_frequency(total: int, tick: int)
    requires
        tick >= 1000,
    ensures
        ({
            let (moved, residual) = tick_and_freq(total, tick);
            let most = (tick / 10) * 1_000_000_000_000_000 + 500_000_000_000 * tick;
            &&& -(tick / 10) <= moved <= tick / 10
            &&& -500_000_000_000 <= residual <= 500_000_000_000
            &&& -500_000_000_000 <= total <= 500_000_000_000 ==> moved == 0 && residual == total
            &&& -most <= total * tick <= most ==> -tick < moved * 1_000_000_000_000_000 + residual
                * tick - total * tick < tick
        }),
{
    crate::slew::large_corrections_are_delivered_in_full(total, tick);
    if -500_000_000_000 <= total <= 500_000_000_000 {
        crate::slew::small_corrections_leave_the_tick_alone(total, tick);
    }
}

/// The unit of the Linux frequency knob: a part per million is 65536 of them, to
/// within one, and it has the sign of the frequency.
pub proof fn a_part_per_million_is_65536_units(total: int)
    ensures
        -1_000_000_000 < knob_units(total) * 1_000_000_000 - total * 65_536 < 1_000_000_000,
        total >= 0 ==> knob_units(total) >= 0,
        total <= 0 ==> knob_units(total) <= 0,
        knob_units(-total) == -knob_units(total),
{
    lemma_toward_zero(total * 65_536, 1_000_000_000);
}

/// What Windows is told: a clock without correction goes by its own increment, one
/// that is to run faster by more, in proportion, rounded down, and one that is to run
/// slower by less, and never backwards.
pub proof fn an_increment_is_scaled(increment: int, total: int, more: int)
    requires
        0 <= increment <= u64::MAX,
        total <= more,
    ensures
        scaled_increment(increment, 0) == increment,
        0 <= scaled_increment(increment, total) <= scaled_increment(increment, more) <= u64::MAX,
        total > -1_000_000_000_000_000 && scaled_increment(increment, total) < u64::MAX ==> 0
            <= increment * (1_000_000_000_000_000 + total) - scaled_increment(increment, total)
            * 1_000_000_000_000_000 < 1_000_000_000_000_000,
{
    let whole: int = 1_000_000_000_000_000;
    assert(increment * (whole + 0) / whole == increment) by (nonlinear_arith)
        requires
            whole > 0,
    ;
    if total > -whole {
        let x = increment * (whole + total);
        let y = increment * (whole + more);
        assert(0 <= x <= y) by (nonlinear_arith)
            requires
                x == increment * (whole + total),
                y == increment * (whole + more),
                0 < whole + total <= whole + more,
                increment >= 0,
        ;
    } else if more > -whole {
        assert(increment * (whole + more) >= 0) by (nonlinear_arith)
            requires
                whole + more > 0,
                increment >= 0,
        ;
    }
}

/// What macOS is told: the offset itself, and with it what the frequency will have
/// made of the time that draining it takes, 1024 seconds at most, ahead for a fast
/// frequency and behind for a slow one.
pub proof fn one_correction_stands_for_both(freq: int, offset: int, rate: int)
    requires
        -0x8000_0000_0000_0000 <= freq <= 0x7fff_ffff_ffff_ffff,
        -0x1000_0000_0000_0000_0000_0000_0000_0000 <= offset
            <= 0x1000_0000_0000_0000_0000_0000_0000_0000,
        0 < rate <= u64::MAX,
    ensures
        ({
            let far = if offset < 0 {
                -offset
            } else {
                offset
            };
            let gained = one_shot(freq, offset, rate) - offset;
            &&& one_shot(freq, offset, 0) == offset
            &&& freq == 0 ==> gained == 0
            &&& freq > 0 ==> gained >= 0
            &&& freq < 0 ==> gained <= 0
            &&& far * 1000 <= 1024 * rate ==> -rate < gained * rate - freq * far < rate
            &&& far * 1000 > 1024 * rate ==> -1000 < gained * 1000 - freq * 1024 < 1000
        }),
{
    let far = size(offset) as int;
    crate::slew::a_projection_is_bounded(freq, offset, rate);
    lemma_toward_zero(freq * far, rate);
    lemma_toward_zero(freq * 1024, 1000);
    assert(freq > 0 ==> freq * far >= 0) by (nonlinear_arith)
        requires
            far >= 0,
    ;
    assert(freq < 0 ==> freq * far <= 0) by (nonlinear_arith)
        requires
            far >= 0,
    ;
    assert(0 * far == 0) by (nonlinear_arith);
    if freq == 0 {
        assert(0int / rate == 0) by (nonlinear_arith)
            requires
                rate > 0,
        ;
    }
}

/// A virtual clock says what was measured: right after a measurement it is the raw
/// clock plus the offset, whatever it said before, unless that was later.
pub proof fn a_virtual_clock_says_what_was_measured(
    clock: VirtualClock,
    mono: u64,
    offset: i64,
    skew: Option<i64>,
    error: i64,
    raw: i64,
)
    ensures
        ({
            let fed = clock_step(
                clock,
                ClockEvent::Update { mono, offset, skew_ppt: skew, error_bound: error },
            );
            &&& clock.high_water is None ==> fed.reading(mono, raw) == raw + offset
            &&& clock.high_water is Some && raw + offset >= clock.high_water->Some_0
                ==> fed.reading(mono, raw) == raw + offset
            &&& clock.high_water is Some && raw + offset < clock.high_water->Some_0
                ==> fed.reading(mono, raw) == clock.high_water->Some_0
            &&& fed.last_update_mono == Some(mono)
            &&& skew is None ==> fed.skew_ppt == clock.skew_ppt
            &&& skew is Some ==> fed.skew_ppt == skew->Some_0
            &&& error >= 0 ==> fed.err_at_update == error
            &&& error < 0 ==> fed.err_at_update == 0
        }),
        clock.last_update_mono is None && clock.high_water is None ==> clock.reading(mono, raw)
            == raw,
{
    let z = 0int;
    assert(forall|s: int| #[trigger] (s * z) == 0) by {
        assert forall|s: int| #[trigger] (s * z) == 0 by {
            assert(s * z == 0) by (nonlinear_arith)
                requires
                    z == 0,
            ;
        }
    }
    let s = match skew {
        Some(v) => v as int,
        None => clock.skew_ppt as int,
    };
    assert(s * 0 == 0 && (-s) * 0 == 0) by (nonlinear_arith);
}

/// A raw clock's known error is taken out: where it runs `skew` parts in 10^12 fast,
/// what it gains that way since the last measurement is taken off, to within a
/// nanosecond, and where it runs slow, what it loses is added.
pub proof fn a_known_skew_is_taken_out(clock: VirtualClock, mono: u64, raw: i64)
    requires
        clock.last_update_mono is Some,
        clock.last_update_mono->Some_0 <= mono,
    ensures
        ({
            let dt = mono - clock.last_update_mono->Some_0;
            let off = raw + clock.offset - clock.corrected(mono, raw);
            &&& -1_000_000_000_000 < off * 1_000_000_000_000 - clock.skew_ppt * dt
                < 1_000_000_000_000
            &&& clock.skew_ppt >= 0 ==> off >= 0
            &&& clock.skew_ppt <= 0 ==> off <= 0
        }),
{
    let dt = mono - clock.last_update_mono->Some_0;
    let s = clock.skew_ppt as int;
    let n = since(clock.last_update_mono->Some_0, mono);
    assert(n == dt);
    assert((-s) * dt == -(s * dt)) by (nonlinear_arith);
    assert(s >= 0 ==> s * dt >= 0) by (nonlinear_arith)
        requires
            dt >= 0,
    ;
    assert(s < 0 ==> (-s) * dt >= 0) by (nonlinear_arith)
        requires
            dt >= 0,
    ;
}

/// Trust fades: nothing is claimed before the first measurement; after it the bound is
/// the measurement's own, and grows by fifteen nanoseconds in every millisecond
/// without news, rounded down.
pub proof fn trust_fades(clock: VirtualClock, mono: u64)
    ensures
        clock.bound_at(mono) is None <==> clock.last_update_mono is None,
        clock.last_update_mono is Some ==> {
            let dt = if mono > clock.last_update_mono->Some_0 {
                mono - clock.last_update_mono->Some_0
            } else {
                0
            };
            let grown = clock.bound_at(mono)->Some_0 - clock.err_at_update;
            0 <= 15 * dt - grown * 1_000_000 < 1_000_000
        },
{
}

/// A virtual driver does what it is told: steps add up, sign and all, and a slew sets
/// the frequency; neither touches the other, nor the clock's own measurements.
pub proof fn a_virtual_driver_obeys(driver: VirtualDriver, cmd: ClockCommand)
    ensures
        ({
            let next = driven(driver, cmd);
            &&& next.vclock == driver.vclock
            &&& match cmd {
                ClockCommand::Step { add_ps } => {
                    &&& next.freq_ppq == driver.freq_ppq
                    &&& i128::MIN <= driver.stepped + add_ps <= i128::MAX ==> next.stepped
                        == driver.stepped + add_ps
                },
                ClockCommand::Slew { freq_ppq, .. } => next.freq_ppq == freq_ppq && next.stepped
                    == driver.stepped,
            }
        }),
{
}

} // verus!
