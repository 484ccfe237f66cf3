//! The synchronisation loop: when to poll which source, which source may steer
//! the clock, and when to stop. There is one control loop for the one clock, and
//! a sample history per source: a source that is not selected never produces a
//! plan, so there is nothing to clean up after it.
//!
//! The caller exchanges packets, applies the commands that it is handed, and
//! reports what came of both. Times are monotonic nanoseconds.

use vstd::arithmetic::power2::pow2;
use vstd::prelude::*;

use crate::arith::power_of_two;
use crate::client::{
    drain_polled, is_estimate, no_books, observed, plan_confirmed, plan_reverted, steered,
    ChangeVerdict, ControllerStep, Estimate, MaxChange, MultiController,
};
use crate::discipline::{fresh, ClockCommand, DisciplineConfig};
use crate::exchange::{estimates_of, selected_index, SourceStatus};
use crate::filter::Sample;
use crate::regression::RegressConfig;
use crate::select::{best_agreement, lists_survivors, no_majority};

verus! {

/// Consecutive refusals from the clock that are put up with. A handful can be
/// transient; a run of them means that this process cannot steer the clock at
/// all.
pub const MAX_REFUSALS: u32 = 10;

/// The longest pause: it keeps the loop responsive.
pub const MAX_PAUSE_NS: u64 = 500_000_000;

/// One source that is polled.
#[derive(Clone, Copy, Debug, PartialEq, Eq, Structural)]
pub struct SourceState {
    /// When it is to be polled next.
    pub due: u64,
    /// What selection knows of it.
    pub status: SourceStatus,
    pub exchanges: u64,
    pub lost: u64,
}

/// A source that has not been polled yet, due at `now`.
pub open spec fn unpolled(now: u64) -> SourceState {
    SourceState {
        due: now,
        status: SourceStatus {
            has_estimate: false,
            offset: 0,
            root_distance: 1_000_000_000,
            stratum: 16,
        },
        exchanges: 0,
        lost: 0,
    }
}

/// A power of two of seconds, in nanoseconds, as far as it fits.
pub open spec fn seconds_log2(log2: int) -> nat {
    if log2 > 34 {
        u64::MAX as nat
    } else if log2 >= 0 {
        1_000_000_000 * pow2(log2 as nat)
    } else {
        1_000_000_000nat / pow2((-log2) as nat)
    }
}

/// An interval in nanoseconds, from the power of two that it is in seconds.
pub fn interval_ns(log2: i8) -> (ns: u64)
    ensures
        ns == seconds_log2(log2 as int),
{
    if log2 > 34 {
        return u64::MAX;
    }
    proof {
        vstd::arithmetic::power2::lemma2_to64();
    }
    if log2 >= 0 {
        let scale: u128 = power_of_two(log2 as u32);
        proof {
            vstd::arithmetic::power2::lemma_pow2_adds(32, 2);
            crate::arith::lemma_pow2_at_most(log2 as nat, 34);
        }
        return (1_000_000_000 * scale) as u64;
    }
    let shift: u32 = (-(log2 as i32)) as u32;
    if shift > 64 {
        proof {
            crate::arith::lemma_pow2_at_most(64, shift as nat);
            let p = pow2(shift as nat) as int;
            assert(1_000_000_000int / p == 0) by (nonlinear_arith)
                requires
                    p > 1_000_000_000,
            ;
        }
        return 0;
    }
    let scale: u128 = power_of_two(shift);
    proof {
        crate::arith::lemma_pow2_at_most(0, shift as nat);
        let p = pow2(shift as nat) as int;
        assert(0 <= 1_000_000_000int / p <= 1_000_000_000) by (nonlinear_arith)
            requires
                p >= 1,
        ;
    }
    (1_000_000_000 / scale) as u64
}

/// A time some way ahead, as far as it fits.
pub open spec fn later(now: u64, ns: nat) -> u64 {
    if now + ns > u64::MAX {
        u64::MAX
    } else {
        (now + ns) as u64
    }
}

/// The earliest time at which one of the first `n` sources is due.
pub open spec fn earliest_due(sources: Seq<SourceState>, n: nat) -> Option<int>
    decreases n,
{
    if n == 0 {
        None
    } else {
        let due = sources[n - 1].due as int;
        match earliest_due(sources, (n - 1) as nat) {
            Some(t) if t <= due => Some(t),
            _ => Some(due),
        }
    }
}

/// A source whose reply was lost, asked every two to the power of `interval` seconds.
pub open spec fn missed(source: SourceState, now: u64, interval: int) -> SourceState {
    SourceState {
        lost: counted(source.lost),
        due: later(now, seconds_log2(interval)),
        ..source
    }
}

/// How a run ends that was meant to change the clock, or not, and did, or did not.
pub open spec fn ended(dry_run: bool, applied_any: bool) -> int {
    if !dry_run && !applied_any {
        1
    } else {
        0
    }
}

/// What the sources tell selection.
pub open spec fn statuses(sources: Seq<SourceState>) -> Seq<SourceStatus> {
    sources.map_values(|s: SourceState| s.status)
}

/// Whether selection picks source `index`, or none where `index` is `None`.
pub open spec fn is_selected(all: Seq<SourceStatus>, index: Option<usize>) -> bool {
    let found = estimates_of(all, all.len());
    match index {
        Some(i) => exists|lo: int, hi: int, picked: Seq<int>| #[trigger]
            lists_survivors(found, lo, hi, picked) && best_agreement(found, lo, hi) && picked.len()
                > 0 && i == found[picked[0]].id,
        None => no_majority(found),
    }
}

/// What to do about a plan.
#[derive(Clone, Copy, Debug, PartialEq, Eq, Structural)]
pub enum Decision {
    /// Hand this to the clock, and report whether the clock took it.
    Apply { command: ClockCommand },
    /// Nothing is to be applied.
    Hold,
    /// End the process: the source keeps asking for more than it may.
    GiveUp,
}

/// Whether to go on.
#[derive(Clone, Copy, Debug, PartialEq, Eq, Structural)]
pub enum Next {
    Continue,
    /// End the process: the clock keeps refusing.
    GiveUp,
}

/// Refusals in a row after the clock took a command, or did not.
pub open spec fn refused_after(refused: u32, taken: bool) -> u32 {
    if taken {
        0
    } else if refused == u32::MAX {
        refused
    } else {
        (refused + 1) as u32
    }
}

/// Whether to go on after the clock took a command, or did not.
pub open spec fn next_after(refused: u32, taken: bool) -> Next {
    if !taken && refused_after(refused, taken) >= MAX_REFUSALS {
        Next::GiveUp
    } else {
        Next::Continue
    }
}

/// What to do about a step.
pub open spec fn decision_on(step: ControllerStep, dry_run: bool) -> Decision {
    if step.verdict is GiveUp {
        Decision::GiveUp
    } else if !dry_run {
        Decision::Apply { command: step.plan.command }
    } else {
        Decision::Hold
    }
}

/// A counter that stays at its largest value.
pub open spec fn counted(n: u64) -> u64 {
    if n < u64::MAX {
        (n + 1) as u64
    } else {
        n
    }
}

/// The loop.
pub struct SyncLoop {
    /// The one control loop, with a register per source.
    pub controller: MultiController,
    pub sources: Vec<SourceState>,
    /// Decide everything, apply nothing.
    pub dry_run: bool,
    /// Whether a drain is ended when its budget is spent.
    pub stop_drains: bool,
    /// How long to run; zero for ever.
    pub run_ns: u64,
    pub started: u64,
    /// Consecutive refusals from the clock.
    pub refused_in_a_row: u32,
    pub drains_retired: u64,
    pub applied_any: bool,
}

impl SyncLoop {
    pub open spec fn wf(&self) -> bool {
        &&& 1 <= self.sources@.len()
        &&& self.controller.wf()
        &&& self.controller@.len() == self.sources@.len()
    }

    /// How long to wait at `now`.
    pub open spec fn wait_at(&self, now: u64) -> int {
        let due = match earliest_due(self.sources@, self.sources@.len()) {
            Some(t) if t > now => t - now,
            _ => 0,
        };
        let wait = match self.controller.books.completes_at() {
            Some(t) if self.stop_drains && 0 < t - now < due => t - now,
            _ => due,
        };
        if wait < MAX_PAUSE_NS {
            wait
        } else {
            MAX_PAUSE_NS as int
        }
    }

    /// Whether the time to run is over at `now`.
    pub open spec fn over_at(&self, now: u64) -> bool {
        self.run_ns > 0 && now >= self.started + self.run_ns
    }

    /// Whether the settings and the counters are as in `other`.
    pub open spec fn same_but_for_loop_and_sources(&self, other: &SyncLoop) -> bool {
        &&& self.dry_run == other.dry_run
        &&& self.stop_drains == other.stop_drains
        &&& self.run_ns == other.run_ns
        &&& self.started == other.started
        &&& self.refused_in_a_row == other.refused_in_a_row
        &&& self.drains_retired == other.drains_retired
        &&& self.applied_any == other.applied_any
    }

    /// A loop over some sources, all due at once.
    pub fn new(
        config: DisciplineConfig,
        weighting: RegressConfig,
        max_change: Option<MaxChange>,
        sources: usize,
        now: u64,
    ) -> (l: Self)
        requires
            config.fits(),
            1 <= sources,
        ensures
            l.wf(),
            l.sources@ == Seq::new(sources as nat, |i: int| unpolled(now)),
            forall|i: int|
                0 <= i < sources ==> (#[trigger] l.controller@[i]) == Seq::<Sample>::empty(),
            l.controller.discipline == fresh(config),
            l.controller.books == no_books(),
            l.controller.regress == weighting,
            l.controller.max_change == max_change,
            l.controller.refused == 0,
            !l.dry_run,
            l.stop_drains,
            l.run_ns == 0,
            l.started == now,
            l.refused_in_a_row == 0,
            l.drains_retired == 0,
            !l.applied_any,
    {
        let mut controller: MultiController = MultiController::new(config, sources, max_change);
        controller.regress = weighting;
        let mut all: Vec<SourceState> = Vec::new();
        let mut i: usize = 0;
        while i < sources
            invariant
                i <= sources,
                all@ == Seq::new(i as nat, |i: int| unpolled(now)),
            decreases sources - i,
        {
            all.push(
                SourceState {
                    due: now,
                    status: SourceStatus {
                        has_estimate: false,
                        offset: 0,
                        root_distance: 1_000_000_000,
                        stratum: 16,
                    },
                    exchanges: 0,
                    lost: 0,
                },
            );
            i = i + 1;
            assert(all@ =~= Seq::new(i as nat, |i: int| unpolled(now)));
        }
        SyncLoop {
            controller,
            sources: all,
            dry_run: false,
            stop_drains: true,
            run_ns: 0,
            started: now,
            refused_in_a_row: 0,
            drains_retired: 0,
            applied_any: false,
        }
    }

    /// Whether the time to run is over.
    pub fn is_over(&self, now: u64) -> (over: bool)
        ensures
            over == self.over_at(now),
    {
        self.run_ns > 0 && now as u128 >= self.started as u128 + self.run_ns as u128
    }

    /// The source that may steer the clock, by majority agreement.
    pub fn driving(&self) -> (index: Option<usize>)
        requires
            self.wf(),
        ensures
            is_selected(statuses(self.sources@), index),
    {
        let mut all: Vec<SourceStatus> = Vec::new();
        let mut i: usize = 0;
        while i < self.sources.len()
            invariant
                i <= self.sources@.len(),
                all@ == statuses(self.sources@).take(i as int),
            decreases self.sources@.len() - i,
        {
            all.push(self.sources[i].status);
            i = i + 1;
            assert(all@ =~= statuses(self.sources@).take(i as int));
        }
        assert(all@ =~= statuses(self.sources@));
        selected_index(all.as_slice())
    }

    /// End the running drain if its budget is spent: the command that leaves the
    /// clock at the frequency term alone.
    pub fn retire_drain(&mut self, now: u64) -> (command: Option<ClockCommand>)
        requires
            old(self).wf(),
        ensures
            final(self).wf(),
            final(self).sources == old(self).sources,
            final(self).same_but_for_loop_and_sources(
                &SyncLoop { drains_retired: final(self).drains_retired, ..*old(self) },
            ),
            if old(self).stop_drains {
                drain_polled(old(self).controller, final(self).controller, now, command)
            } else {
                command is None && final(self).controller == old(self).controller
            },
            final(self).drains_retired == if command is Some {
                counted(old(self).drains_retired)
            } else {
                old(self).drains_retired
            },
    {
        if !self.stop_drains {
            return None;
        }
        let command: Option<ClockCommand> = self.controller.poll_drain(now);
        if command.is_some() {
            self.drains_retired = self.drains_retired.saturating_add(1);
        }
        command
    }

    /// The clock refused to end a drain. It is then running faster than the
    /// books say, so the refusal counts with the rest.
    pub fn drain_refused(&mut self)
        ensures
            *final(self) == (SyncLoop {
                refused_in_a_row: refused_after(old(self).refused_in_a_row, false),
                ..*old(self)
            }),
    {
        self.refused_in_a_row = self.refused_in_a_row.saturating_add(1);
    }

    /// How long to wait: until the earliest source is due or the running drain
    /// ends, whichever comes first, and never long. Zero means that a source is
    /// due.
    pub fn pause(&self, now: u64) -> (ns: u64)
        requires
            self.wf(),
        ensures
            ns == self.wait_at(now),
    {
        let mut due: Option<u64> = None;
        let mut i: usize = 0;
        while i < self.sources.len()
            invariant
                i <= self.sources@.len(),
                match earliest_due(self.sources@, i as nat) {
                    Some(t) => due is Some && due->Some_0 == t,
                    None => due is None,
                },
            decreases self.sources@.len() - i,
        {
            let own: u64 = self.sources[i].due;
            due = match due {
                Some(t) if t <= own => Some(t),
                _ => Some(own),
            };
            i = i + 1;
        }
        let mut wait: u64 = match due {
            Some(t) if t > now => t - now,
            _ => 0,
        };
        if self.stop_drains {
            if let Some(at) = self.controller.drain_completes_at() {
                if at > now as u128 {
                    let left: u128 = at - now as u128;
                    if left < wait as u128 {
                        wait = left as u64;
                    }
                }
            }
        }
        if wait < MAX_PAUSE_NS {
            wait
        } else {
            MAX_PAUSE_NS
        }
    }

    /// Whether a source is to be polled now.
    pub fn is_due(&self, index: usize, now: u64) -> (due: bool)
        requires
            index < self.sources@.len(),
        ensures
            due == (self.sources@[index as int].due <= now),
    {
        self.sources[index].due <= now
    }

    /// An exchange was lost: try again when the loop says so.
    pub fn lost(&mut self, index: usize, now: u64)
        requires
            old(self).wf(),
            index < old(self).sources@.len(),
        ensures
            final(self).wf(),
            final(self).controller == old(self).controller,
            final(self).same_but_for_loop_and_sources(old(self)),
            final(self).sources@ == old(self).sources@.update(
                index as int,
                SourceState {
                    lost: counted(old(self).sources@[index as int].lost),
                    due: later(now, seconds_log2(old(self).controller.discipline.interval())),
                    ..old(self).sources@[index as int]
                },
            ),
            final(self).sources@[index as int] == missed(
                old(self).sources@[index as int],
                now,
                old(self).controller.discipline.interval(),
            ),
    {
        let retry: i8 = self.controller.retry_interval_log2();
        let mut source: SourceState = self.sources[index];
        source.lost = source.lost.saturating_add(1);
        source.due = now.saturating_add(interval_ns(retry));
        self.sources.set(index, source);
    }

    /// Take in what an exchange measured, and what the source said of itself;
    /// `root_distance` is in nanoseconds. Where the source is the one that drives
    /// the clock, the loop plans from it; any other is only measured.
    pub fn on_sample(
        &mut self,
        index: usize,
        now: u64,
        sample: Sample,
        stratum: u8,
        root_distance: i64,
    ) -> (step: Option<ControllerStep>)
        requires
            old(self).wf(),
            index < old(self).sources@.len(),
            old(self).controller@[index as int].len() > 0 ==> old(
                self,
            ).controller@[index as int].last().t <= sample.t,
        ensures
            final(self).wf(),
            final(self).same_but_for_loop_and_sources(old(self)),
            exists|mid: MultiController, est: Estimate|
                {
                    &&& #[trigger] observed(
                        old(self).controller,
                        mid,
                        index as int,
                        now,
                        sample,
                    )
                    &&& #[trigger] is_estimate(mid@[index as int], mid.regress, now, est)
                    &&& taken_in(
                        *old(self),
                        *final(self),
                        mid,
                        est,
                        index as int,
                        now,
                        stratum,
                        root_distance,
                        step,
                    )
                },
    {
        let est: Estimate = self.controller.observe(index, now, sample);
        let ghost mid = self.controller;
        let status = SourceStatus {
            has_estimate: true,
            offset: to_ns(est.offset),
            root_distance,
            stratum,
        };
        let mut source: SourceState = self.sources[index];
        source.exchanges = source.exchanges.saturating_add(1);
        source.status = status;
        self.sources.set(index, source);
        let ghost heard = self.sources@;
        let driving: Option<usize> = self.driving();
        let (step, interval): (Option<ControllerStep>, i8) = if driving == Some(index) {
            let step: ControllerStep = self.controller.steer(est, now);
            (Some(step), step.plan.next_poll_log2)
        } else {
            (None, self.controller.retry_interval_log2())
        };
        source.due = now.saturating_add(interval_ns(interval));
        self.sources.set(index, source);
        proof {
            assert(statuses(self.sources@) =~= statuses(heard));
            assert(statuses(heard) =~= statuses(old(self).sources@).update(index as int, status));
            assert(observed(old(self).controller, mid, index as int, now, sample));
            assert(is_estimate(mid@[index as int], mid.regress, now, est));
            assert(self.sources@ =~= old(self).sources@.update(index as int, source));
            assert(taken_in(
                *old(self),
                *self,
                mid,
                est,
                index as int,
                now,
                stratum,
                root_distance,
                step,
            ));
        }
        step
    }

    /// What to do about a plan: end where the source was given up on, apply it,
    /// or, in a dry run, carry on as if it had been applied.
    pub fn decide(&mut self, step: &ControllerStep) -> (decision: Decision)
        requires
            old(self).wf(),
        ensures
            final(self).wf(),
            final(self).sources == old(self).sources,
            final(self).same_but_for_loop_and_sources(old(self)),
            decision == decision_on(*step, old(self).dry_run),
            decision is Hold ==> plan_confirmed(old(self).controller, final(self).controller),
            !(decision is Hold) ==> final(self).controller == old(self).controller,
    {
        match step.verdict {
            ChangeVerdict::GiveUp => {
                return Decision::GiveUp;
            },
            _ => {},
        }
        if !self.dry_run {
            return Decision::Apply { command: step.plan.command };
        }
        self.controller.confirm_last_plan();
        Decision::Hold
    }

    /// Note whether the clock took a command. One that it took is booked for
    /// good; one that it refused leaves no trace in the books, and a run of
    /// refusals ends the process.
    pub fn applied(&mut self, taken: bool) -> (next: Next)
        requires
            old(self).wf(),
        ensures
            final(self).wf(),
            final(self).sources == old(self).sources,
            final(self).same_but_for_loop_and_sources(
                &SyncLoop {
                    applied_any: old(self).applied_any || taken,
                    refused_in_a_row: refused_after(old(self).refused_in_a_row, taken),
                    ..*old(self)
                },
            ),
            taken ==> plan_confirmed(old(self).controller, final(self).controller),
            !taken ==> plan_reverted(old(self).controller, final(self).controller),
            next == next_after(old(self).refused_in_a_row, taken),
    {
        if taken {
            self.applied_any = true;
            self.refused_in_a_row = 0;
            self.controller.confirm_last_plan();
            return Next::Continue;
        }
        self.controller.revert_last_plan();
        self.refused_in_a_row = self.refused_in_a_row.saturating_add(1);
        if self.refused_in_a_row >= MAX_REFUSALS {
            Next::GiveUp
        } else {
            Next::Continue
        }
    }

    /// What the process ends with when its time is over: a run that was to steer
    /// the clock and never did has failed.
    pub fn exit_code(&self) -> (code: i32)
        ensures
            code == if !self.dry_run && !self.applied_any {
                1int
            } else {
                0int
            },
            code == ended(self.dry_run, self.applied_any),
    {
        if !self.dry_run && !self.applied_any {
            1
        } else {
            0
        }
    }
}

/// Whether `after` and `step` are what a loop makes of the estimate `est` of
/// source `index`, once its sample was recorded in `mid`: planned from where the
/// source is the selected one, and only noted where it is not.
pub open spec fn taken_in(
    before: SyncLoop,
    after: SyncLoop,
    mid: MultiController,
    est: Estimate,
    index: int,
    now: u64,
    stratum: u8,
    root_distance: i64,
    step: Option<ControllerStep>,
) -> bool {
    let status = SourceStatus {
        has_estimate: true,
        offset: whole_ns(est.offset as int),
        root_distance,
        stratum,
    };
    let interval = match step {
        Some(s) => s.plan.next_poll_log2 as int,
        None => mid.discipline.interval(),
    };
    &&& after.sources@ == before.sources@.update(
        index,
        SourceState {
            due: later(now, seconds_log2(interval)),
            status,
            exchanges: counted(before.sources@[index].exchanges),
            lost: before.sources@[index].lost,
        },
    )
    &&& match step {
        Some(s) => is_selected(
            statuses(before.sources@).update(index, status),
            Some(index as usize),
        ) && steered(mid, after.controller, est, now, s),
        None => after.controller == mid && exists|other: Option<usize>|
            #[trigger] is_selected(statuses(before.sources@).update(index, status), other)
                && other != Some(index as usize),
    }
}

/// An unselected source steers nothing: what it measured is recorded, and neither
/// the control loop's plan nor any frequency or drain is changed by it.
pub proof fn an_unselected_source_steers_nothing(
    before: SyncLoop,
    after: SyncLoop,
    mid: MultiController,
    est: Estimate,
    index: int,
    now: u64,
    sample: Sample,
    stratum: u8,
    root_distance: i64,
)
    requires
        observed(before.controller, mid, index, now, sample),
        taken_in(before, after, mid, est, index, now, stratum, root_distance, None),
    ensures
        after.controller.discipline == before.controller.discipline,
        after.controller.books.freq_cmd_ppq == before.controller.books.freq_cmd_ppq,
        after.controller.books.drain_ppq == before.controller.books.drain_ppq,
        after.controller.books.unapplied == before.controller.books.unapplied,
        after.controller.refused == before.controller.refused,
{
}

/// Picoseconds in nanoseconds, towards zero, as far as they fit.
pub open spec fn whole_ns(ps: int) -> i64 {
    let ns = crate::arith::toward_zero(ps, 1000);
    if ns > i64::MAX {
        i64::MAX
    } else if ns < i64::MIN {
        i64::MIN
    } else {
        ns as i64
    }
}

/// Picoseconds in nanoseconds, towards zero, as far as they fit.
fn to_ns(ps: i128) -> (ns: i64)
    ensures
        ns == whole_ns(ps as int),
{
    if ps == i128::MIN {
        return i64::MIN;
    }
    let whole: i128 = crate::arith::quotient(ps, 1000);
    if whole > i64::MAX as i128 {
        i64::MAX
    } else if whole < i64::MIN as i128 {
        i64::MIN
    } else {
        whole as i64
    }
}

/// Refusals in a row after a run of commands that the clock took or refused.
pub open spec fn refused_over(first: u32, taken: Seq<bool>) -> u32
    decreases taken.len(),
{
    if taken.len() == 0 {
        first
    } else {
        refused_after(refused_over(first, taken.drop_last()), taken.last())
    }
}

/// The process ends exactly with the tenth refusal in a row: with fewer since
/// the last command that the clock took it goes on.
pub proof fn ten_refusals_in_a_row_end_the_process(before: Seq<bool>, refusals: nat)
    requires
        before.len() > 0 ==> before.last(),
    ensures
        refusals <= u32::MAX ==> refused_over(
            0,
            before + Seq::new(refusals, |i: int| false),
        ) == refusals,
        refusals < MAX_REFUSALS ==> refused_over(0, before + Seq::new(refusals, |i: int| false))
            < MAX_REFUSALS,
    decreases refusals,
{
    let run = before + Seq::new(refusals, |i: int| false);
    if refusals == 0 {
        assert(run =~= before);
    } else {
        let less = (refusals - 1) as nat;
        ten_refusals_in_a_row_end_the_process(before, less);
        assert(run.drop_last() =~= before + Seq::new(less, |i: int| false));
        assert(!run.last());
    }
}

} // verus!
