//! What the controller is for: what it tells the clock takes away what was measured,
//! and every sample is kept as the changed clock would have measured it.

use vstd::prelude::*;

use crate::arith::size;
use crate::client::{
    change_verdict, drain_polled, elapsed, is_estimate, observed, plan_confirmed, plan_reverted,
    preloaded, refusals_after, slewed_window, steered, Books, ControllerStep, Estimate, MaxChange,
    MultiController,
};
use crate::discipline::{ClockCommand, Discipline, OFFSET_LIMIT};
use crate::filter::{drift_ps, shift_of, slewed, Sample};
use crate::regression::RegressConfig;

verus! {

/// What a clock gains: one that runs `ppq` parts in 10^15 fast is ahead by that much
/// of the time that passes, and one that runs slow falls behind, to within a
/// picosecond toward zero; and none gains anything in no time.
pub proof fn a_fast_clock_gains(ppq: int, dt: int)
    ensures
        -1_000_000_000_000 < drift_ps(ppq, dt) * 1_000_000_000_000 - ppq * dt < 1_000_000_000_000,
        drift_ps(-ppq, dt) == -drift_ps(ppq, dt),
        drift_ps(ppq, -dt) == -drift_ps(ppq, dt),
        drift_ps(ppq, 0) == 0 && drift_ps(0, dt) == 0,
        ppq > 0 && dt > 0 ==> drift_ps(ppq, dt) >= 0,
        ppq < 0 && dt > 0 ==> drift_ps(ppq, dt) <= 0,
{
    let x = ppq * dt;
    assert((-ppq) * dt == -x && ppq * (-dt) == -x && ppq * 0 == 0 && 0 * dt == 0) by (nonlinear_arith)
        requires
            x == ppq * dt,
    ;
    assert(ppq > 0 && dt > 0 ==> x > 0) by (nonlinear_arith)
        requires
            x == ppq * dt,
    ;
    assert(ppq < 0 && dt > 0 ==> x < 0) by (nonlinear_arith)
        requires
            x == ppq * dt,
    ;
}

/// A sample is kept as the changed clock would have measured it: adding `doffset` to
/// the clock takes that much off what is to be added, and running it `dfreq` faster
/// from `t_change` on takes off what it gains by the sample's time, or gives it back
/// for a sample from before. Neither its time nor its delay changes.
pub proof fn a_changed_clock_measures_less(
    sample: Sample,
    t_change: u64,
    dfreq: int,
    doffset: int,
)
    requires
        i128::MIN <= sample.offset - shift_of(sample, t_change, dfreq, doffset) <= i128::MAX,
    ensures
        ({
            let kept = slewed(sample, t_change, dfreq, doffset);
            let off = sample.offset - kept.offset - doffset;
            &&& -1_000_000_000_000 < off * 1_000_000_000_000 - dfreq * (sample.t - t_change)
                < 1_000_000_000_000
            &&& dfreq == 0 || sample.t == t_change ==> kept.offset == sample.offset - doffset
            &&& kept.t == sample.t
            &&& kept.delay == sample.delay
            &&& kept.dispersion == sample.dispersion
        }),
{
    a_fast_clock_gains(dfreq, sample.t - t_change);
}

/// Acting on an estimate: an accepted correction adds to the clock at once what was
/// measured, or drains it, in the direction of the offset and no other, at the rate
/// that the plan says; the whole of it is owed from now on. The driver is told the
/// frequency and the drain together.
pub proof fn steering_takes_the_offset_away(
    before: MultiController,
    after: MultiController,
    est: Estimate,
    now: u64,
    step: ControllerStep,
)
    requires
        before.wf(),
        after.wf(),
        steered(before, after, est, now, step),
        step.verdict is Accepted,
        -OFFSET_LIMIT <= est.offset <= OFFSET_LIMIT,
    ensures
        after.books.booked_until == Some(now),
        after.books.last_plan == Some(now),
        step.applied_ppq == after.books.freq_cmd_ppq + after.books.drain_ppq,
        match step.plan.command {
            ClockCommand::Step { add_ps } => {
                &&& add_ps == est.offset
                &&& after.books.drain_ppq == 0
                &&& after.books.drain_remaining == 0
                &&& after.books.freq_cmd_ppq == after.discipline.freq_ppq
            },
            ClockCommand::Slew { freq_ppq, drain_offset_ps, drain_rate_ppq } => {
                &&& drain_offset_ps == est.offset
                &&& est.offset >= 0 ==> after.books.drain_ppq == drain_rate_ppq
                    && after.books.drain_remaining == est.offset
                &&& est.offset < 0 ==> after.books.drain_ppq == -drain_rate_ppq
                    && after.books.drain_remaining == -est.offset
                &&& after.books.freq_cmd_ppq == freq_ppq
            },
        },
{
}

/// History follows the clock: after an accepted step every sample of every source
/// reads as much less as was added to the clock; after a slew each is tilted by the
/// change of frequency about the present, so that a sample taken now stays as it is.
pub proof fn steering_carries_the_history_along(
    before: MultiController,
    after: MultiController,
    est: Estimate,
    now: u64,
    step: ControllerStep,
    i: int,
    j: int,
)
    requires
        before.wf(),
        after.wf(),
        steered(before, after, est, now, step),
        step.verdict is Accepted,
        -OFFSET_LIMIT <= est.offset <= OFFSET_LIMIT,
        0 <= i < before@.len(),
        0 <= j < before@[i].len(),
        -0x4000_0000_0000_0000_0000_0000_0000_0000 <= before@[i][j].offset
            <= 0x4000_0000_0000_0000_0000_0000_0000_0000,
    ensures
        after@.len() == before@.len(),
        after@[i].len() == before@[i].len(),
        after@[i][j].t == before@[i][j].t,
        after@[i][j].delay == before@[i][j].delay,
        ({
            let gone = before@[i][j].offset - after@[i][j].offset;
            let dfreq = after.books.freq_cmd_ppq - before.books.freq_cmd_ppq;
            let dt = before@[i][j].t - now;
            let stepped = match step.plan.command {
                ClockCommand::Step { .. } => est.offset as int,
                ClockCommand::Slew { .. } => 0,
            };
            -1_000_000_000_000 < (gone - stepped) * 1_000_000_000_000 - dfreq * dt
                < 1_000_000_000_000
        }),
{
    let undo = after.books.unapplied->Some_0;
    let f = |w: Seq<Sample>| slewed_window(w, now, undo.dfreq_ppq as int, undo.step as int);
    let s = before@[i][j];
    let dfreq = undo.dfreq_ppq as int;
    let dt = s.t - now;
    assert(after@[i] == f(before@[i]));
    a_fast_clock_gains(dfreq, dt);
    assert(-(0x8000_0000_0000_0000 * 0x1_0000_0000_0000_0000) <= dfreq * dt <= 0x8000_0000_0000_0000
        * 0x1_0000_0000_0000_0000) by (nonlinear_arith)
        requires
            -0x8000_0000_0000_0000 <= dfreq <= 0x8000_0000_0000_0000,
            -0x1_0000_0000_0000_0000 <= dt <= 0x1_0000_0000_0000_0000,
    ;
    a_changed_clock_measures_less(s, now, dfreq, undo.step as int);
}

/// What is refused leaves the clock as it was: the driver is told what it was told
/// before, no sample changes, and the loop and the books stand.
pub proof fn a_refused_correction_changes_nothing(
    before: MultiController,
    after: MultiController,
    est: Estimate,
    now: u64,
    step: ControllerStep,
)
    requires
        before.wf(),
        steered(before, after, est, now, step),
        !(step.verdict is Accepted),
    ensures
        after@ == before@,
        after.books == before.books,
        after.discipline == before.discipline,
        step.applied_ppq == before.books.freq_cmd_ppq + before.books.drain_ppq,
        match step.plan.command {
            ClockCommand::Step { .. } => false,
            ClockCommand::Slew { freq_ppq, drain_offset_ps, drain_rate_ppq } => {
                &&& freq_ppq == before.books.freq_cmd_ppq
                &&& before.books.drain_ppq >= 0 ==> drain_rate_ppq == before.books.drain_ppq
                    && drain_offset_ps == before.books.drain_remaining
                &&& before.books.drain_ppq < 0 ==> drain_rate_ppq == -before.books.drain_ppq
                    && drain_offset_ps == -before.books.drain_remaining
            },
        },
        !step.plan.reset_register,
        step.plan.next_poll_log2 == if before.discipline.iburst_left > 0 {
            1
        } else {
            before.discipline.poll
        },
{
}

/// The bound on changes holds from the update behind its start on: what is refused is
/// exactly what comes later and is larger, and it is counted, unless it gives up.
pub proof fn the_bound_holds_behind_its_start(
    before: MultiController,
    after: MultiController,
    est: Estimate,
    now: u64,
    step: ControllerStep,
)
    requires
        steered(before, after, est, now, step),
    ensures
        step.verdict is Accepted <==> !(before.max_change is Some && before.discipline.updates
            >= before.max_change->Some_0.start && (est.offset > before.max_change->Some_0.offset
            || -est.offset > before.max_change->Some_0.offset)),
        step.verdict is Accepted ==> after.refused == 0,
        step.verdict is Refused && before.refused < u32::MAX ==> after.refused == before.refused
            + 1,
        step.verdict is GiveUp ==> after.refused == before.refused,
        step.estimate == est,
{
}

/// What the bound on changes refuses: with one set, and its start behind us, exactly
/// the corrections that are larger than it, ahead or behind. The refusals in a row
/// are counted, and once there are as many as are put up with, the next one gives
/// up; a negative number of them never does. An accepted one starts the count anew.
pub proof fn large_changes_are_refused(
    limit: Option<MaxChange>,
    update: int,
    refused: u32,
    offset: int,
)
    ensures
        ({
            let verdict = change_verdict(limit, update, refused, offset);
            let large = limit is Some && update > limit->Some_0.start && (offset
                > limit->Some_0.offset || -offset > limit->Some_0.offset);
            let over = limit is Some && limit->Some_0.ignore >= 0 && refused
                >= limit->Some_0.ignore;
            &&& verdict is Accepted <==> !large
            &&& verdict is GiveUp <==> large && over
            &&& verdict is Refused <==> large && !over
            &&& verdict is Refused && refused < u32::MAX ==> verdict->seen == refused + 1
            &&& verdict is Accepted ==> refusals_after(verdict, refused) == 0
            &&& verdict is Refused && refused < u32::MAX ==> refusals_after(verdict, refused)
                == refused + 1
            &&& verdict == change_verdict(limit, update, refused, -offset)
        }),
{
}

/// A drain delivers in the direction that it runs, as much as its rate makes of the
/// time since it was last booked, and by the time it is booked it owes that much
/// less.
pub proof fn a_drain_delivers_what_its_rate_makes(books: Books, now: u64)
    requires
        books.wf(),
        books.booked_until is Some,
        books.booked_until->Some_0 <= now,
    ensures
        ({
            let ran = now - books.booked_until->Some_0;
            let out = books.drained(now);
            &&& -1_000_000_000_000 < out * 1_000_000_000_000 - books.drain_ppq * ran
                < 1_000_000_000_000
            &&& books.drain_ppq > 0 ==> out >= 0
            &&& books.drain_ppq < 0 ==> out <= 0
            &&& books.drain_ppq == 0 ==> out == 0
            &&& books.settled(now).booked_until == Some(now)
            &&& books.settled(now).drain_ppq == books.drain_ppq
            &&& books.settled(now).freq_cmd_ppq == books.freq_cmd_ppq
            &&& -books.drain_remaining <= out <= books.drain_remaining
                ==> books.settled(now).drain_remaining == books.drain_remaining - if out < 0 {
                -out
            } else {
                out
            }
            &&& out > books.drain_remaining || -out > books.drain_remaining
                ==> books.settled(now).drain_remaining == 0
        }),
{
    let ran = now - books.booked_until->Some_0;
    a_fast_clock_gains(books.drain_ppq as int, ran);
}

/// When a drain ends: at the first nanosecond by which its rate has made all that it
/// owes of the time.
pub proof fn a_drain_ends_when_it_is_paid(books: Books)
    requires
        books.wf(),
    ensures
        books.completes_at() is Some <==> books.booked_until is Some && books.drain_ppq != 0
            && books.drain_remaining > 0,
        books.completes_at() is Some ==> {
            let rate = if books.drain_ppq < 0 {
                -books.drain_ppq
            } else {
                books.drain_ppq as int
            };
            let wait = books.completes_at()->Some_0 - books.booked_until->Some_0;
            &&& rate * wait >= books.drain_remaining * 1_000_000_000_000
            &&& rate * (wait - 1) < books.drain_remaining * 1_000_000_000_000
        },
{
    if books.completes_at() is Some {
        let rate = size(books.drain_ppq as int) as int;
        let owed: int = books.drain_remaining * 1_000_000_000_000;
        let wait = (owed + rate - 1) / rate;
        assert(rate * wait >= owed && rate * (wait - 1) < owed) by (nonlinear_arith)
            requires
                wait == (owed + rate - 1) / rate,
                rate >= 1,
                owed >= 1,
        ;
    }
}

/// A drain that is paid is ended and one that is not is left running: the clock is
/// then told its frequency alone, nothing is owed any more, and every sample reads as
/// much less as was delivered.
pub proof fn a_paid_drain_is_ended(
    before: MultiController,
    after: MultiController,
    now: u64,
    command: Option<ClockCommand>,
    i: int,
    j: int,
)
    requires
        before.wf(),
        drain_polled(before, after, now, command),
        0 <= i < before@.len(),
        0 <= j < before@[i].len(),
        -0x4000_0000_0000_0000_0000_0000_0000_0000 <= before@[i][j].offset
            <= 0x4000_0000_0000_0000_0000_0000_0000_0000,
    ensures
        ({
            let due = before.books.completes_at() is Some && before.books.completes_at()->Some_0
                <= now;
            &&& command is Some <==> due
            &&& !due ==> after.books == before.books && after@ == before@
            &&& due ==> {
                &&& command->Some_0 == (ClockCommand::Slew {
                    freq_ppq: before.books.freq_cmd_ppq,
                    drain_offset_ps: 0,
                    drain_rate_ppq: 0,
                })
                &&& after.books.drain_ppq == 0
                &&& after.books.drain_remaining == 0
                &&& after.books.completes_at() is None
                &&& after.books.last_plan == Some(now) && after.books.booked_until == Some(now)
                &&& after.books.freq_cmd_ppq == before.books.freq_cmd_ppq
                &&& before@[i][j].offset - after@[i][j].offset == before.books.drained(now)
                &&& after@[i][j].t == before@[i][j].t
            }
        }),
{
    let consumed = before.books.drained(now);
    let rate = before.books.drain_ppq as int;
    if before.books.booked_until is Some {
        let dt = elapsed(before.books.booked_until->Some_0, now);
        a_fast_clock_gains(rate, dt);
        assert(-(0x8000_0000_0000_0000 * 0x1_0000_0000_0000_0000) <= rate * dt
            <= 0x8000_0000_0000_0000 * 0x1_0000_0000_0000_0000) by (nonlinear_arith)
            requires
                -0x8000_0000_0000_0000 <= rate <= 0x8000_0000_0000_0000,
                0 <= dt <= 0x1_0000_0000_0000_0000,
        ;
    }
    let s = before@[i][j];
    a_fast_clock_gains(0, s.t - now);
    let f = |w: Seq<Sample>| slewed_window(w, now, 0, consumed);
    if consumed != 0 && before.books.completes_at() is Some && before.books.completes_at()->Some_0
        <= now {
        assert(after@[i] == f(before@[i]));
    }
}

/// Measuring records: the sample is the newest of its source's window, the others
/// keep their order, a window of 64 loses its oldest, no other source gains or loses
/// a sample, and what the clock has been told stands.
pub proof fn a_measurement_is_recorded(
    before: MultiController,
    after: MultiController,
    index: int,
    now: u64,
    sample: Sample,
)
    requires
        before.wf(),
        0 <= index < before@.len(),
        observed(before, after, index, now, sample),
        before@[index].len() <= 64,
    ensures
        after@.len() == before@.len(),
        after@[index].last() == sample,
        after@[index].len() == if before@[index].len() < 64 {
            before@[index].len() + 1
        } else {
            64
        },
        forall|i: int| 0 <= i < before@.len() && i != index ==> (#[trigger] after@[i]).len()
            == before@[i].len(),
        after.books.freq_cmd_ppq == before.books.freq_cmd_ppq,
        after.books.drain_ppq == before.books.drain_ppq,
        after.discipline == before.discipline,
        before.books.drained(now) == 0 ==> forall|i: int|
            0 <= i < before@.len() && i != index ==> (#[trigger] after@[i]) == before@[i],
        forall|k: int|
            0 <= k < before@[index].len() && (before@[index].len() < 64 || k > 0) ==> ({
                let kept = after@[index][if before@[index].len() < 64 {
                    k
                } else {
                    k - 1
                }];
                &&& kept.t == (#[trigger] before@[index][k]).t
                &&& kept.delay == before@[index][k].delay
                &&& before.books.drained(now) == 0 ==> kept == before@[index][k]
            }),
{
}

/// Three samples and more speak together: the estimate is what the line through them says,
/// with a deviation of a tenth of a microsecond at least.
pub proof fn three_samples_make_a_line(
    window: Seq<Sample>,
    config: RegressConfig,
    now: u64,
    estimate: Estimate,
)
    requires
        is_estimate(window, config, now, estimate),
        window.len() > 2,
    ensures
        estimate.samples == window.len(),
        estimate.sd >= 100_000,
        exists|r: crate::regression::RegressEstimate| #[trigger]
            crate::regression::is_regression(window, config, now, r) && estimate.offset == r.offset
                && estimate.freq_ppq == r.freq_ppq && (estimate.sd == r.offset_sd || (estimate.sd
                == 100_000 && r.offset_sd < 100_000)),
{
    let r = choose|r: crate::regression::RegressEstimate| #[trigger]
        crate::regression::is_regression(window, config, now, r) && estimate.offset == r.offset
            && estimate.freq_ppq == r.freq_ppq && estimate.sd == if r.offset_sd
            < crate::discipline::NOISE_FLOOR_PS {
            crate::discipline::NOISE_FLOOR_PS
        } else {
            r.offset_sd
        };
    assert(crate::regression::is_regression(window, config, now, r));
}

/// What a source with few samples is taken to say: with none, nothing, and with a
/// millisecond of noise; with one or two, what the one with the shortest delay says,
/// give or take half that delay, a tenth of a microsecond at least, and nothing of
/// the frequency.
pub proof fn few_samples_speak_for_themselves(
    window: Seq<Sample>,
    config: RegressConfig,
    now: u64,
    estimate: Estimate,
)
    requires
        is_estimate(window, config, now, estimate),
        window.len() < 3,
        forall|i: int|
            0 <= i < window.len() ==> -OFFSET_LIMIT <= (#[trigger] window[i]).offset
                <= OFFSET_LIMIT,
    ensures
        estimate.samples == window.len(),
        estimate.freq_ppq is None,
        window.len() == 0 ==> estimate.offset == 0 && estimate.sd == 1_000_000_000,
        window.len() > 0 ==> exists|k: int|
            0 <= k < window.len() && estimate.offset == (#[trigger] window[k]).offset && (forall|
                i: int,
            |
                0 <= i < window.len() ==> window[k].delay <= (#[trigger] window[i]).delay)
                && estimate.sd == if window[k].delay < 200_000 {
                100_000
            } else {
                window[k].delay as int / 2
            },
{
    if window.len() > 0 {
        let k = choose|k: int| #[trigger]
            crate::filter::is_best(window, k) && estimate.offset == crate::arith::within(
                window[k].offset as int,
                OFFSET_LIMIT as int,
            ) && estimate.freq_ppq is None && estimate.sd == ({
                let half = if window[k].delay < 0 {
                    0
                } else {
                    window[k].delay as int / 2
                };
                if half < crate::discipline::NOISE_FLOOR_PS {
                    crate::discipline::NOISE_FLOOR_PS as int
                } else {
                    half
                }
            });
        assert(-OFFSET_LIMIT <= window[k].offset <= OFFSET_LIMIT);
    }
}

/// What was learned is not learned again: a loop that starts from a known frequency
/// runs at it, as far as its cap lets it, and a slew that measures none goes on at it.
pub proof fn a_known_frequency_is_kept(d: Discipline, freq: i64, offset: int, sd: u64)
    requires
        d.wf(),
        d.cfg.freq_integral_gain_micro == 0,
    ensures
        ({
            let cap = d.cfg.max_freq_ppq as int;
            let seeded = preloaded(d, freq);
            &&& -cap <= freq <= cap ==> seeded.freq_ppq == freq
            &&& freq > cap ==> seeded.freq_ppq == cap
            &&& freq < -cap ==> seeded.freq_ppq == -cap
            &&& match seeded.plan(offset, None, sd).command {
                ClockCommand::Slew { freq_ppq, .. } => freq_ppq == seeded.freq_ppq,
                ClockCommand::Step { .. } => seeded.after(offset, None, sd).freq_ppq
                    == seeded.freq_ppq,
            }
        }),
{
}

/// What the clock has taken cannot be taken back: once a plan is confirmed, reverting
/// changes nothing.
pub proof fn a_confirmed_plan_stands(
    before: MultiController,
    confirmed: MultiController,
    after: MultiController,
)
    requires
        plan_confirmed(before, confirmed),
        plan_reverted(confirmed, after),
    ensures
        confirmed@ == before@,
        after@ == before@,
        after.discipline == before.discipline,
        after.books == confirmed.books,
        after.books.freq_cmd_ppq == before.books.freq_cmd_ppq,
        after.books.drain_ppq == before.books.drain_ppq,
        after.books.drain_remaining == before.books.drain_remaining,
{
}

} // verus!
