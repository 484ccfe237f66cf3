//! What disciplining a clock is for: every command moves the clock toward the time
//! that was measured, by as much as was measured, whichever way it is off.

use vstd::arithmetic::power2::{lemma_pow2_pos, pow2};
use vstd::prelude::*;

use crate::arith::{size, toward_zero, within};
use crate::discipline::{
    fresh, noise_of, one_more, rate_over, ClockCommand, Discipline, DisciplineConfig, Plan,
    CORR_TIME_RATIO, FREQ_LIMIT, OFFSET_LIMIT,
};

verus! {

/// A step undoes the offset: what is added to the clock is what was measured, sign
/// and all, so that nothing is left of it. A slew drains the same amount.
pub proof fn a_command_removes_the_offset(
    d: Discipline,
    offset: int,
    measured: Option<i64>,
    sd: u64,
)
    requires
        -OFFSET_LIMIT <= offset <= OFFSET_LIMIT,
    ensures
        match d.plan(offset, measured, sd).command {
            ClockCommand::Step { add_ps } => offset - add_ps == 0,
            ClockCommand::Slew { drain_offset_ps, .. } => offset - drain_offset_ps == 0,
        },
        d.plan(offset, measured, sd).command is Step <==> d.plan(
            offset,
            measured,
            sd,
        ).reset_register,
{
}

/// What is stepped: an offset further from zero than the threshold, ahead or
/// behind, while there are steps left to make, and nothing else.
pub proof fn large_offsets_are_stepped_early_on(
    d: Discipline,
    offset: int,
    measured: Option<i64>,
    sd: u64,
)
    requires
        d.updates < u32::MAX,
    ensures
        d.plan(offset, measured, sd).command is Step <==> {
            &&& d.cfg.makestep_threshold is Some
            &&& offset > d.cfg.makestep_threshold->Some_0 || -offset
                > d.cfg.makestep_threshold->Some_0
            &&& d.updates < d.cfg.makestep_limit
        },
{
}

/// The same loop on a clock that is off the other way.
pub open spec fn mirrored(d: Discipline) -> Discipline {
    Discipline {
        freq_ppq: (-d.freq_ppq) as i64,
        offset_ewma: (-d.offset_ewma) as i128,
        ..d
    }
}

/// The same command for a clock that is off the other way.
pub open spec fn mirrored_command(c: ClockCommand) -> ClockCommand {
    match c {
        ClockCommand::Step { add_ps } => ClockCommand::Step { add_ps: (-add_ps) as i128 },
        ClockCommand::Slew { freq_ppq, drain_offset_ps, drain_rate_ppq } => ClockCommand::Slew {
            freq_ppq: (-freq_ppq) as i64,
            drain_offset_ps: (-drain_offset_ps) as i128,
            drain_rate_ppq,
        },
    }
}

/// A frequency of the other sign.
pub open spec fn mirrored_frequency(measured: Option<i64>) -> Option<i64> {
    match measured {
        Some(f) => Some((-f) as i64),
        None => None,
    }
}

proof fn lemma_toward_zero_is_odd(x: int, d: int)
    requires
        d > 0,
    ensures
        toward_zero(-x, d) == -toward_zero(x, d),
{
    if x == 0 {
        assert(0int / d == 0) by (nonlinear_arith)
            requires
                d > 0,
        ;
    }
}

proof fn lemma_mirrored_average(d: Discipline, offset: int)
    requires
        -OFFSET_LIMIT <= offset <= OFFSET_LIMIT,
        -OFFSET_LIMIT <= d.offset_ewma <= OFFSET_LIMIT,
    ensures
        mirrored(d).averaged(-offset) == mirrored(d.averaged(offset)),
        -OFFSET_LIMIT <= d.averaged(offset).offset_ewma <= OFFSET_LIMIT,
{
    lemma_toward_zero_is_odd(3 * d.offset_ewma + offset, 4);
    assert(3 * (-(d.offset_ewma as int)) + (-offset) == -(3 * d.offset_ewma + offset));
}

proof fn lemma_mirrored_trim(d: Discipline, noise: nat)
    requires
        -OFFSET_LIMIT <= d.offset_ewma <= OFFSET_LIMIT,
        d.cfg.max_freq_ppq <= FREQ_LIMIT,
        -FREQ_LIMIT <= d.freq_ppq <= FREQ_LIMIT,
    ensures
        mirrored(d).trimmed(noise) == mirrored(d.trimmed(noise)),
{
    let gain = d.cfg.freq_integral_gain_micro as int;
    let far = size(d.offset_ewma as int);
    assert(size(-(d.offset_ewma as int)) == far);
    let implied = within(
        rate_over(far, CORR_TIME_RATIO as nat, d.interval()) as int,
        FREQ_LIMIT as int,
    );
    assert(mirrored(d).interval() == d.interval());
    assert(gain * (-implied) == -(gain * implied)) by (nonlinear_arith);
    lemma_toward_zero_is_odd(gain * implied, 1_000_000);
}

/// A fast clock is treated as a slow one is, the other way round: turning every
/// sign in what the loop holds and is told turns every sign in what it commands,
/// and changes no rate and no interval.
#[verifier::rlimit(60)]
pub proof fn fast_and_slow_clocks_are_treated_alike(
    d: Discipline,
    offset: int,
    measured: Option<i64>,
    sd: u64,
)
    requires
        d.wf(),
        -OFFSET_LIMIT <= offset <= OFFSET_LIMIT,
        measured is Some ==> measured->Some_0 > i64::MIN,
    ensures
        ({
            let plan = d.plan(offset, measured, sd);
            let other = mirrored(d).plan(-offset, mirrored_frequency(measured), sd);
            &&& other.command == mirrored_command(plan.command)
            &&& other.next_poll_log2 == plan.next_poll_log2
            &&& other.reset_register == plan.reset_register
        }),
        mirrored(d).after(-offset, mirrored_frequency(measured), sd) == mirrored(
            d.after(offset, measured, sd),
        ),
{
    let noise = noise_of(sd);
    let ready = d.ready(offset, measured, noise);
    let other = mirrored(d).ready(-offset, mirrored_frequency(measured), noise);
    lemma_mirrored_ready(d, offset, measured, noise);
    lemma_mirrored_drain(ready, offset, noise);
    lemma_bounds(d, offset, measured, noise);
    lemma_plan(d, offset, measured, sd, ready);
    lemma_plan(mirrored(d), -offset, mirrored_frequency(measured), sd, other);
}

proof fn lemma_mirrored_drain(d: Discipline, offset: int, noise: nat)
    ensures
        mirrored(d).drain_rate(-offset, noise) == d.drain_rate(offset, noise),
{
    assert(size(-offset) == size(offset));
    assert(mirrored(d).interval() == d.interval());
}

proof fn lemma_bounds(d: Discipline, offset: int, measured: Option<i64>, noise: nat)
    requires
        d.wf(),
    ensures
        -FREQ_LIMIT <= d.ready(offset, measured, noise).freq_ppq <= FREQ_LIMIT,
{
}

proof fn lemma_plan(d: Discipline, offset: int, measured: Option<i64>, sd: u64, ready: Discipline)
    requires
        ready == d.ready(offset, measured, noise_of(sd)),
    ensures
        d.steps(offset) ==> d.plan(offset, measured, sd) == (Plan {
            command: ClockCommand::Step { add_ps: offset as i128 },
            next_poll_log2: d.interval() as i8,
            reset_register: true,
        }) && d.after(offset, measured, sd) == (Discipline {
            updates: one_more(d.updates),
            stable_streak: 0,
            ..d
        }).slot_taken(),
        !d.steps(offset) ==> d.plan(offset, measured, sd) == (Plan {
            command: ClockCommand::Slew {
                freq_ppq: ready.freq_ppq,
                drain_offset_ps: offset as i128,
                drain_rate_ppq: ready.drain_rate(offset, noise_of(sd)) as u64,
            },
            next_poll_log2: ready.interval() as i8,
            reset_register: false,
        }) && d.after(offset, measured, sd) == (Discipline {
            last_drain_ppq: ready.drain_rate(offset, noise_of(sd)) as u64,
            ..ready
        }).slot_taken(),
{
}

proof fn lemma_mirrored_ready(d: Discipline, offset: int, measured: Option<i64>, noise: nat)
    requires
        d.wf(),
        -OFFSET_LIMIT <= offset <= OFFSET_LIMIT,
        measured is Some ==> measured->Some_0 > i64::MIN,
    ensures
        mirrored(d).ready(-offset, mirrored_frequency(measured), noise) == mirrored(
            d.ready(offset, measured, noise),
        ),
{
    let one = Discipline { updates: one_more(d.updates), ..d };
    let a = one.tuned(measured);
    assert(mirrored(one).tuned(mirrored_frequency(measured)) == mirrored(a));
    lemma_mirrored_average(a, offset);
    let c = a.averaged(offset);
    lemma_mirrored_trim(c, noise);
    let e = c.trimmed(noise);
    lemma_mirrored_pace(e, offset, noise);
}

proof fn lemma_mirrored_pace(e: Discipline, offset: int, noise: nat)
    ensures
        mirrored(e).paced(-offset, noise).extended(-offset, noise) == mirrored(
            e.paced(offset, noise).extended(offset, noise),
        ),
{
    assert(size(-offset) == size(offset));
    assert(mirrored(e).paced(-offset, noise) == mirrored(e.paced(offset, noise)));
}

/// A measured frequency is believed in full: without an integral trim, a slew runs
/// at the frequency it ran at plus what was measured, as far as the cap lets it;
/// without a measurement, at what it ran at.
pub proof fn a_measured_frequency_is_added(
    d: Discipline,
    offset: int,
    measured: Option<i64>,
    sd: u64,
)
    requires
        d.wf(),
        d.cfg.freq_integral_gain_micro == 0,
        4 * d.last_drain_ppq <= d.cfg.max_slew_ppq,
        d.plan(offset, measured, sd).command is Slew,
    ensures
        ({
            let freq = d.plan(offset, measured, sd).command->freq_ppq;
            let cap = d.cfg.max_freq_ppq as int;
            match measured {
                None => freq == d.freq_ppq,
                Some(f) => {
                    &&& -cap <= d.freq_ppq + f <= cap ==> freq == d.freq_ppq + f
                    &&& d.freq_ppq + f > cap ==> freq == cap
                    &&& d.freq_ppq + f < -cap ==> freq == -cap
                },
            }
        }),
        d.after(offset, measured, sd).freq_ppq == d.plan(offset, measured, sd).command->freq_ppq,
{
}

/// What is stepped away teaches no frequency, and neither does what was measured
/// while the clock was hauled at more than a quarter of its ceiling.
pub proof fn a_step_teaches_no_frequency(
    d: Discipline,
    offset: int,
    measured: Option<i64>,
    sd: u64,
)
    requires
        d.wf(),
    ensures
        d.plan(offset, measured, sd).command is Step ==> d.after(offset, measured, sd).freq_ppq
            == d.freq_ppq,
        d.cfg.freq_integral_gain_micro == 0 && 4 * d.last_drain_ppq > d.cfg.max_slew_ppq
            ==> d.after(offset, measured, sd).freq_ppq == d.freq_ppq,
{
}

/// Every plan counts, and where there is a step nothing else is learnt: the interval stays,
/// one is taken off a burst, and the next poll comes as the burst or the interval says.
pub proof fn a_step_counts_as_an_update(
    d: Discipline,
    offset: int,
    measured: Option<i64>,
    sd: u64,
)
    requires
        d.wf(),
        d.updates < u32::MAX,
    ensures
        d.after(offset, measured, sd).updates == d.updates + 1,
        d.plan(offset, measured, sd).command is Step ==> {
            let next = d.after(offset, measured, sd);
            &&& d.plan(offset, measured, sd).reset_register
            &&& d.plan(offset, measured, sd).next_poll_log2 == if d.iburst_left > 0 {
                1
            } else {
                d.poll
            }
            &&& next.poll == d.poll && next.stable_streak == 0
            &&& next.iburst_left == if d.iburst_left > 0 {
                d.iburst_left - 1
            } else {
                0
            }
            &&& next.burst_used - d.burst_used == d.iburst_left - next.iburst_left
            &&& next.offset_ewma == d.offset_ewma && next.ewma_seeded == d.ewma_seeded
            &&& next.last_drain_ppq == d.last_drain_ppq
        },
{
}

/// The integral trim pulls the right way: with a gain above zero, a clock whose
/// average offset is ahead is never slowed by it, and one whose average is behind is
/// never sped up; and it waits until acquisition is over.
pub proof fn the_trim_pulls_toward_the_offset(d: Discipline, offset: int, sd: u64)
    requires
        d.wf(),
        -OFFSET_LIMIT <= offset <= OFFSET_LIMIT,
        d.cfg.freq_integral_gain_micro >= 0,
    ensures
        ({
            let next = d.after(offset, None, sd);
            &&& next.offset_ewma >= 0 ==> next.freq_ppq >= d.freq_ppq
            &&& next.offset_ewma <= 0 ==> next.freq_ppq <= d.freq_ppq
            &&& d.updates < 8 ==> next.freq_ppq == d.freq_ppq
        }),
{
    let noise = noise_of(sd);
    if !(d.plan(offset, None, sd).command is Step) {
        let one = Discipline { updates: one_more(d.updates), ..d };
        let c = one.tuned(None).averaged(offset);
        let gain = d.cfg.freq_integral_gain_micro as int;
        let implied = within(
            rate_over(size(c.offset_ewma as int), 3, c.interval()) as int,
            FREQ_LIMIT as int,
        );
        assert(implied >= 0);
        assert(gain * implied >= 0) by (nonlinear_arith)
            requires
                gain >= 0,
                implied >= 0,
        ;
        assert(gain * (-implied) == -(gain * implied)) by (nonlinear_arith);
        let ready = d.ready(offset, None, noise);
        assert(ready.offset_ewma == c.offset_ewma);
    } else {
        assert(d.after(offset, None, sd).freq_ppq == d.freq_ppq);
    }
}

/// The average offset moves a quarter of the way to what was measured, rounded
/// toward zero, and starts at the first one.
pub proof fn the_average_follows_the_offsets(
    d: Discipline,
    offset: int,
    measured: Option<i64>,
    sd: u64,
)
    requires
        d.wf(),
        -OFFSET_LIMIT <= offset <= OFFSET_LIMIT,
        d.plan(offset, measured, sd).command is Slew,
    ensures
        ({
            let next = d.after(offset, measured, sd);
            &&& !d.ewma_seeded ==> next.offset_ewma == offset
            &&& d.ewma_seeded ==> -4 < 4 * next.offset_ewma - (3 * d.offset_ewma + offset) < 4
            &&& next.ewma_seeded
        }),
{
}

/// How long a drain takes. Once acquisition is over, or where the offset does not
/// stand out of the noise ten times over, it is spread over three intervals, or
/// over the correction time where one is set; during acquisition an offset that
/// stands out is drained in one interval, with at most a quarter of the slew
/// ceiling unless it stands out ten thousand times over. It is never drained faster
/// than that, and slower by less than one part only where the ceiling holds it.
pub proof fn a_drain_takes_its_time(d: Discipline, offset: int, measured: Option<i64>, sd: u64)
    requires
        d.wf(),
        d.plan(offset, measured, sd).command is Slew,
        d.plan(offset, measured, sd).next_poll_log2 >= 0,
    ensures
        ({
            let plan = d.plan(offset, measured, sd);
            let rate = plan.command->drain_rate_ppq as int;
            let far = if offset < 0 {
                -offset
            } else {
                offset
            };
            let noise = if sd < 100_000 {
                100_000
            } else {
                sd as int
            };
            let span = pow2(plan.next_poll_log2 as nat) as int;
            let ceiling = d.cfg.max_slew_ppq as int;
            let corr = d.cfg.corr_time_ns as int;
            &&& rate <= ceiling
            &&& if d.updates < 8 && far > 10 * noise {
                &&& rate * span <= far * 1000
                &&& far < 10_000 * noise ==> rate <= ceiling / 4
                &&& far * 1000 < (rate + 1) * span || rate == if far < 10_000 * noise {
                    ceiling / 4
                } else {
                    ceiling
                }
            } else if corr > 0 {
                &&& rate * corr <= far * 1_000_000_000_000
                &&& far * 1_000_000_000_000 < (rate + 1) * corr || rate == ceiling
            } else {
                &&& rate * (3 * span) <= far * 1000
                &&& far * 1000 < (rate + 1) * (3 * span) || rate == ceiling
            }
        }),
{
    let plan = d.plan(offset, measured, sd);
    let rate = plan.command->drain_rate_ppq as int;
    let far = size(offset) as int;
    let noise = noise_of(sd);
    let ready = d.ready(offset, measured, noise);
    let span = pow2(plan.next_poll_log2 as nat) as int;
    let ceiling = d.cfg.max_slew_ppq as int;
    let corr = d.cfg.corr_time_ns as int;
    lemma_pow2_pos(plan.next_poll_log2 as nat);
    assert(ready.updates <= 8 <==> d.updates < 8);
    lemma_quotient(far * 1000, span, rate);
    lemma_quotient(far * 1000, 3 * span, rate);
    assert(3 * span > 0);
    assert(1 * span == span);
    if corr > 0 {
        lemma_quotient(far * 1_000_000_000_000, corr, rate);
    }
}

proof fn lemma_quotient(x: int, d: int, rate: int)
    requires
        d > 0,
        x >= 0,
    ensures
        rate <= x / d ==> rate * d <= x,
        rate == x / d ==> x < (rate + 1) * d,
{
    assert(rate <= x / d ==> rate * d <= x) by (nonlinear_arith)
        requires
            d > 0,
    ;
    assert(rate == x / d ==> x < (rate + 1) * d) by (nonlinear_arith)
        requires
            d > 0,
    ;
}

/// How often a source is asked: a poll interval changes by one step at most and
/// stays between its ends; it only ever grows where the offset is within twice the
/// noise, and then once the streak of such is long enough; it only ever shrinks where
/// the offset is loud. The streak counts quiet offsets, and starts over with one that is
/// not, with a step, and with a longer interval.
pub proof fn quiet_sources_are_asked_less(
    d: Discipline,
    offset: int,
    measured: Option<i64>,
    sd: u64,
)
    requires
        d.wf(),
        d.cfg.min_poll <= d.cfg.max_poll,
    ensures
        ({
            let next = d.after(offset, measured, sd);
            let far = if offset < 0 {
                -offset
            } else {
                offset
            };
            let noise = if sd < 100_000 {
                100_000
            } else {
                sd as int
            };
            let slewed = d.plan(offset, measured, sd).command is Slew;
            &&& d.cfg.min_poll <= next.poll <= d.cfg.max_poll
            &&& d.poll - 1 <= next.poll <= d.poll + 1
            &&& next.poll > d.poll <==> slewed && far < 2 * noise && d.poll < d.cfg.max_poll && (
            d.stable_streak == u32::MAX || d.stable_streak + 1 >= d.cfg.poll_up_streak)
            &&& next.poll < d.poll <==> slewed && far >= 2 * noise && far * 1000
                > d.cfg.poll_down_noise_ratio_milli * noise && d.poll > d.cfg.min_poll
            &&& next.stable_streak == if slewed && far < 2 * noise && next.poll == d.poll {
                if d.stable_streak == u32::MAX {
                    u32::MAX as int
                } else {
                    d.stable_streak + 1
                }
            } else {
                0
            }
        }),
{
}

/// The acquisition burst: while it lasts a source is asked every two seconds, and
/// each plan takes one off it; it is kept going, up to sixteen in all, while more
/// than a millisecond, and twice the noise, is outstanding.
pub proof fn a_burst_asks_every_two_seconds(
    d: Discipline,
    offset: int,
    measured: Option<i64>,
    sd: u64,
)
    requires
        d.wf(),
    ensures
        ({
            let plan = d.plan(offset, measured, sd);
            let next = d.after(offset, measured, sd);
            let far = if offset < 0 {
                -offset
            } else {
                offset
            };
            let noise = if sd < 100_000 {
                100_000
            } else {
                sd as int
            };
            let goes_on = plan.command is Slew && d.cfg.iburst && d.burst_used < 16 && far
                > 1_000_000_000 && far > 2 * noise;
            &&& d.iburst_left > 0 ==> plan.next_poll_log2 == 1 && next.iburst_left == d.iburst_left
                - 1 && next.burst_used == d.burst_used + 1
            &&& d.iburst_left == 0 && goes_on ==> plan.next_poll_log2 == 1 && next.burst_used
                == d.burst_used + 1
            &&& d.iburst_left == 0 && !goes_on ==> plan.next_poll_log2 == next.poll
                && next.burst_used == d.burst_used
        }),
{
}

/// A fresh loop corrects nothing yet, asks at its shortest interval, and starts with
/// a burst of four where one is wanted.
pub proof fn a_fresh_loop_knows_nothing(cfg: DisciplineConfig)
    ensures
        fresh(cfg).freq_ppq == 0,
        fresh(cfg).updates == 0,
        fresh(cfg).poll == cfg.min_poll,
        fresh(cfg).cfg == cfg,
        fresh(cfg).iburst_left == if cfg.iburst {
            4int
        } else {
            0
        },
        fresh(cfg).interval() == if cfg.iburst {
            1
        } else {
            cfg.min_poll as int
        },
{
}

} // verus!
