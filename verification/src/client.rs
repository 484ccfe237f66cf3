//! The client-side synchronisation controller: it turns estimates into clock
//! commands, and keeps the books that describe what the clock was told.
//!
//! There is **one loop per clock and one register per source**. A frequency
//! correction, a drain and its budget are properties of the clock, of which there
//! is one; only the sample history is a property of a source. So an unselected
//! source never produces a plan, and there is nothing to clean up after it.

use vstd::prelude::*;

use crate::arith::{size, within};
use crate::discipline::{
    ClockCommand, Discipline, DisciplineConfig, Plan, FREQ_LIMIT, NOISE_FLOOR_PS, OFFSET_LIMIT,
};
use crate::filter::{drift, drift_ps, is_best, slewed, Sample, SampleRegister, SHIFT_LIMIT};
use crate::regression::{default_weighting, is_regression, RegressConfig, RegressEstimate};

verus! {

/// How many samples one source keeps.
pub const REGISTER_CAPACITY: usize = 64;

/// Noise assumed of a source that has no samples: 1 ms.
pub const UNKNOWN_SD_PS: u64 = 1_000_000_000;

/// One source's estimate of the clock, as the selection algorithm sees it.
#[derive(Clone, Copy, Debug, PartialEq, Eq, Structural)]
pub struct Estimate {
    pub offset: i128,
    pub freq_ppq: Option<i64>,
    /// Dispersion of the estimate itself: how well this source knows the offset,
    /// as opposed to how well it knows the path.
    pub sd: u64,
    pub samples: usize,
}

/// The bound on what a source may do to the clock. Beyond `start` updates, a
/// correction larger than `offset` is refused and the clock is left as it was;
/// after `ignore` consecutive refusals the next one gives up. A negative
/// `ignore` never gives up.
#[derive(Clone, Copy, Debug, PartialEq, Eq, Structural)]
pub struct MaxChange {
    pub offset: u128,
    pub start: u32,
    pub ignore: i32,
}

/// What the bound made of a correction.
#[derive(Clone, Copy, Debug, PartialEq, Eq, Structural)]
pub enum ChangeVerdict {
    Accepted,
    /// Too large; `seen` refusals in a row now.
    Refused { seen: u32 },
    /// Too large once more than is put up with.
    GiveUp,
}

/// The verdict on a correction that would be update number `update`, after
/// `refused` refusals in a row.
pub open spec fn change_verdict(
    limit: Option<MaxChange>,
    update: int,
    refused: u32,
    offset: int,
) -> ChangeVerdict {
    match limit {
        None => ChangeVerdict::Accepted,
        Some(m) => if update > m.start && size(offset) > m.offset {
            if m.ignore >= 0 && refused >= m.ignore {
                ChangeVerdict::GiveUp
            } else {
                ChangeVerdict::Refused {
                    seen: if refused < u32::MAX {
                        (refused + 1) as u32
                    } else {
                        refused
                    },
                }
            }
        } else {
            ChangeVerdict::Accepted
        },
    }
}

/// Refusals in a row, after a verdict.
pub open spec fn refusals_after(verdict: ChangeVerdict, refused: u32) -> u32 {
    match verdict {
        ChangeVerdict::Accepted => 0,
        ChangeVerdict::Refused { seen } => seen,
        ChangeVerdict::GiveUp => refused,
    }
}

fn judge(limit: Option<MaxChange>, updates: u32, refused: u32, offset: i128) -> (verdict: ChangeVerdict)
    requires
        -OFFSET_LIMIT <= offset <= OFFSET_LIMIT,
    ensures
        verdict == change_verdict(limit, updates + 1, refused, offset as int),
{
    match limit {
        None => ChangeVerdict::Accepted,
        Some(m) => {
            let far: u128 = if offset < 0 { (-offset) as u128 } else { offset as u128 };
            if updates >= m.start && far > m.offset {
                if m.ignore >= 0 && refused as i64 >= m.ignore as i64 {
                    ChangeVerdict::GiveUp
                } else {
                    ChangeVerdict::Refused { seen: refused.saturating_add(1) }
                }
            } else {
                ChangeVerdict::Accepted
            }
        },
    }
}

/// The bookkeeping one plan performed, kept only until the caller says whether
/// the clock actually accepted it.
#[derive(Clone, Copy, Debug, PartialEq, Eq, Structural)]
pub struct Unapplied {
    pub mono: u64,
    pub dfreq_ppq: i64,
    pub step: i128,
    pub freq_cmd_before: i64,
    pub drain_ppq_before: i64,
    pub drain_remaining_before: u128,
    pub last_plan_before: Option<u64>,
    pub booked_until_before: Option<u64>,
    /// The loop as it was before it planned.
    pub discipline_before: Discipline,
    /// The refusals in a row before the plan ended them.
    pub refused_before: u32,
}

/// What the clock has been told.
#[derive(Clone, Copy, Debug, PartialEq, Eq, Structural)]
pub struct Books {
    /// The *permanent* frequency correction currently commanded.
    pub freq_cmd_ppq: i64,
    /// The *temporary* offset-drain rate currently running. Kept apart from the
    /// frequency: a frequency change tilts the whole history, while a drain
    /// consumes offset and must be subtracted as one.
    pub drain_ppq: i64,
    /// How much correction the running drain still owes: a drain is a
    /// **budget**, not a frequency, and ends when it is spent.
    pub drain_remaining: u128,
    /// Monotonic time of the last plan.
    pub last_plan: Option<u64>,
    /// Monotonic time up to which the running drain has been booked against the
    /// registers. Separate from `last_plan`: with several sources a poll does
    /// not imply a plan, and a drain must be booked exactly once.
    pub booked_until: Option<u64>,
    /// What the last plan changed, so it can be undone if the driver refused it.
    pub unapplied: Option<Unapplied>,
}

/// Nanoseconds from `then` to `now`; none where the clock ran backwards.
pub open spec fn elapsed(then: u64, now: u64) -> int {
    if now > then {
        now - then
    } else {
        0
    }
}

/// A rate with the sign of the offset it drains.
pub open spec fn signed_rate(rate: u64, offset: int) -> int {
    if offset < 0 {
        -(rate as int)
    } else {
        rate as int
    }
}

impl Books {
    pub open spec fn wf(self) -> bool {
        &&& -FREQ_LIMIT <= self.freq_cmd_ppq <= FREQ_LIMIT
        &&& -FREQ_LIMIT <= self.drain_ppq <= FREQ_LIMIT
        &&& self.drain_remaining <= OFFSET_LIMIT
        &&& self.last_plan is Some <==> self.booked_until is Some
        &&& self.unapplied is Some ==> {
            let u = self.unapplied->Some_0;
            &&& u.dfreq_ppq > i64::MIN
            &&& -OFFSET_LIMIT <= u.step <= OFFSET_LIMIT
            &&& -FREQ_LIMIT <= u.freq_cmd_before <= FREQ_LIMIT
            &&& -FREQ_LIMIT <= u.drain_ppq_before <= FREQ_LIMIT
            &&& u.drain_remaining_before <= OFFSET_LIMIT
            &&& u.last_plan_before is Some <==> u.booked_until_before is Some
            &&& u.discipline_before.wf()
        }
    }

    /// When the running drain will have spent its budget, rounded up: what it
    /// still owes is owed from the time up to which it is booked. `None` where
    /// none is running.
    pub open spec fn completes_at(self) -> Option<int> {
        if self.booked_until is Some && self.drain_ppq != 0 && self.drain_remaining > 0 {
            let rate = size(self.drain_ppq as int) as int;
            Some(
                self.booked_until->Some_0 + (self.drain_remaining * 1_000_000_000_000 + rate - 1)
                    / rate,
            )
        } else {
            None
        }
    }

    /// What the running drain has delivered since it was last booked.
    pub open spec fn drained(self, now: u64) -> int {
        match self.booked_until {
            Some(last) => drift_ps(self.drain_ppq as int, elapsed(last, now)),
            None => 0,
        }
    }

    /// The books with the running drain settled.
    pub open spec fn settled(self, now: u64) -> Books {
        let drained = self.drained(now);
        Books {
            drain_remaining: if size(drained) < self.drain_remaining {
                (self.drain_remaining - size(drained)) as u128
            } else {
                0
            },
            booked_until: match self.booked_until {
                Some(_) => Some(now),
                None => None,
            },
            ..self
        }
    }

    /// The books with the drain retired.
    pub open spec fn retired(self, now: u64) -> Books {
        Books {
            drain_ppq: 0,
            drain_remaining: 0,
            last_plan: Some(now),
            booked_until: Some(now),
            ..self
        }
    }

    /// The books after a plan by the loop `loop_before`, which ended `refused`
    /// refusals in a row.
    pub open spec fn planned(
        self,
        command: ClockCommand,
        freq_new: i64,
        now: u64,
        loop_before: Discipline,
        refused: u32,
    ) -> Books {
        let step = match command {
            ClockCommand::Step { add_ps } => add_ps,
            ClockCommand::Slew { .. } => 0,
        };
        Books {
            freq_cmd_ppq: freq_new,
            drain_ppq: match command {
                ClockCommand::Step { .. } => 0,
                ClockCommand::Slew { drain_offset_ps, drain_rate_ppq, .. } => signed_rate(
                    drain_rate_ppq,
                    drain_offset_ps as int,
                ) as i64,
            },
            drain_remaining: match command {
                ClockCommand::Step { .. } => 0,
                ClockCommand::Slew { drain_offset_ps, .. } => size(drain_offset_ps as int) as u128,
            },
            last_plan: Some(now),
            booked_until: Some(now),
            unapplied: Some(
                Unapplied {
                    mono: now,
                    dfreq_ppq: (freq_new - self.freq_cmd_ppq) as i64,
                    step,
                    freq_cmd_before: self.freq_cmd_ppq,
                    drain_ppq_before: self.drain_ppq,
                    drain_remaining_before: self.drain_remaining,
                    last_plan_before: self.last_plan,
                    booked_until_before: self.booked_until,
                    discipline_before: loop_before,
                    refused_before: refused,
                },
            ),
        }
    }

    /// The books with the last plan undone.
    pub open spec fn reverted(self) -> Books {
        match self.unapplied {
            None => self,
            Some(u) => Books {
                freq_cmd_ppq: u.freq_cmd_before,
                drain_ppq: u.drain_ppq_before,
                drain_remaining: u.drain_remaining_before,
                last_plan: u.last_plan_before,
                booked_until: u.booked_until_before,
                unapplied: None,
            },
        }
    }
}

/// A register's window after the clock was changed.
pub open spec fn slewed_window(
    window: Seq<Sample>,
    t_change: u64,
    dfreq: int,
    doffset: int,
) -> Seq<Sample> {
    window.map_values(|s: Sample| slewed(s, t_change, dfreq, doffset))
}

/// Several sources, one clock loop.
pub struct MultiController {
    /// Per source: the measurement history. Nothing here steers anything.
    pub registers: Vec<SampleRegister>,
    /// Shared: the one loop that decides what the clock is told.
    pub discipline: Discipline,
    pub books: Books,
    /// How samples are weighted in the regression.
    pub regress: RegressConfig,
    pub max_change: Option<MaxChange>,
    /// Corrections refused in a row.
    pub refused: u32,
}

/// What the controller decided, plus what the caller must do about it.
#[derive(Clone, Copy, Debug, PartialEq, Eq, Structural)]
pub struct ControllerStep {
    pub plan: Plan,
    /// Total frequency the driver should command: the permanent correction plus
    /// the drain currently running.
    pub applied_ppq: i64,
    /// The estimate that produced the plan, for reporting.
    pub estimate: Estimate,
    /// What the maximum-change guard made of this correction.
    pub verdict: ChangeVerdict,
}

impl View for MultiController {
    type V = Seq<Seq<Sample>>;

    /// The windows of the registers.
    open spec fn view(&self) -> Seq<Seq<Sample>> {
        self.registers@.map_values(|r: SampleRegister| r@)
    }
}

impl MultiController {
    pub open spec fn wf(&self) -> bool {
        &&& self.registers@.len() >= 1
        &&& forall|i: int|
            0 <= i < self.registers@.len() ==> (#[trigger] self.registers@[i]).wf()
                && self.registers@[i].limit() == REGISTER_CAPACITY
        &&& self.discipline.wf()
        &&& self.books.wf()
    }

    /// The command that says what the clock is doing already.
    pub open spec fn standing_command(&self) -> ClockCommand {
        ClockCommand::Slew {
            freq_ppq: self.books.freq_cmd_ppq,
            drain_offset_ps: if self.books.drain_ppq < 0 {
                -(self.books.drain_remaining as int)
            } else {
                self.books.drain_remaining as int
            } as i128,
            drain_rate_ppq: size(self.books.drain_ppq as int) as u64,
        }
    }

    pub fn new(config: DisciplineConfig, sources: usize, max_change: Option<MaxChange>) -> (c: Self)
        requires
            config.fits(),
        ensures
            c.wf(),
            c@.len() == if sources == 0 {
                1
            } else {
                sources as nat
            },
            forall|i: int| 0 <= i < c@.len() ==> (#[trigger] c@[i]) == Seq::<Sample>::empty(),
            c.discipline == crate::discipline::fresh(config),
            c.books == no_books(),
            c.regress == default_weighting(),
            c.max_change == max_change,
            c.refused == 0,
    {
        let count: usize = if sources == 0 { 1 } else { sources };
        let mut registers: Vec<SampleRegister> = Vec::new();
        let mut i: usize = 0;
        while i < count
            invariant
                i <= count,
                registers@.len() == i,
                forall|j: int|
                    0 <= j < i ==> (#[trigger] registers@[j]).wf() && registers@[j].limit()
                        == REGISTER_CAPACITY && registers@[j]@ == Seq::<Sample>::empty(),
            decreases count - i,
        {
            registers.push(SampleRegister::new(REGISTER_CAPACITY));
            i = i + 1;
        }
        MultiController {
            registers,
            discipline: Discipline::new(config),
            books: Books {
                freq_cmd_ppq: 0,
                drain_ppq: 0,
                drain_remaining: 0,
                last_plan: None,
                booked_until: None,
                unapplied: None,
            },
            regress: RegressConfig::default(),
            max_change,
            refused: 0,
        }
    }

    /// Re-express every register for a changed clock: the change reaches the one
    /// clock they all measure.
    fn slew_all(&mut self, t_change: u64, dfreq: i64, doffset: i128)
        requires
            old(self).wf(),
            -SHIFT_LIMIT <= doffset <= SHIFT_LIMIT,
        ensures
            final(self).wf(),
            final(self).discipline == old(self).discipline,
            final(self).books == old(self).books,
            final(self).regress == old(self).regress,
            final(self).max_change == old(self).max_change,
            final(self).refused == old(self).refused,
            final(self)@ == old(self)@.map_values(
                |w: Seq<Sample>| slewed_window(w, t_change, dfreq as int, doffset as int),
            ),
    {
        let ghost before = *self;
        let n: usize = self.registers.len();
        let mut i: usize = 0;
        while i < n
            invariant
                i <= n == self.registers@.len(),
                n == before.registers@.len(),
                before.wf(),
                -SHIFT_LIMIT <= doffset <= SHIFT_LIMIT,
                self.discipline == before.discipline,
                self.books == before.books,
                self.regress == before.regress,
                self.max_change == before.max_change,
                self.refused == before.refused,
                forall|j: int|
                    0 <= j < n ==> (#[trigger] self.registers@[j]).wf()
                        && self.registers@[j].limit() == REGISTER_CAPACITY,
                forall|j: int|
                    0 <= j < i ==> (#[trigger] self.registers@[j])@ == slewed_window(
                        before.registers@[j]@,
                        t_change,
                        dfreq as int,
                        doffset as int,
                    ),
                forall|j: int|
                    i <= j < n ==> (#[trigger] self.registers@[j]) == before.registers@[j],
            decreases n - i,
        {
            assert(self.registers@[i as int].wf());
            self.registers[i].slew_samples(t_change, dfreq, doffset);
            i = i + 1;
        }
        assert(self@ =~= before@.map_values(
            |w: Seq<Sample>| slewed_window(w, t_change, dfreq as int, doffset as int),
        ));
    }

    /// Undo the last plan, because the driver refused it: the loop's arithmetic
    /// has to describe what the clock actually did, so loop, books, registers
    /// and the count of refusals are put back. Returns whether there was a plan
    /// to revert.
    pub fn revert_last_plan(&mut self) -> (reverted: bool)
        requires
            old(self).wf(),
        ensures
            final(self).wf(),
            plan_reverted(*old(self), *final(self)),
            reverted == old(self).books.unapplied is Some,
    {
        match self.books.unapplied {
            None => false,
            Some(u) => {
                self.slew_all(u.mono, -u.dfreq_ppq, -u.step);
                self.books.freq_cmd_ppq = u.freq_cmd_before;
                self.books.drain_ppq = u.drain_ppq_before;
                self.books.drain_remaining = u.drain_remaining_before;
                self.books.last_plan = u.last_plan_before;
                self.books.booked_until = u.booked_until_before;
                self.books.unapplied = None;
                self.discipline = u.discipline_before;
                self.refused = u.refused_before;
                true
            },
        }
    }

    /// Confirm the last plan reached the clock, so it can no longer be undone.
    pub fn confirm_last_plan(&mut self)
        requires
            old(self).wf(),
        ensures
            final(self).wf(),
            plan_confirmed(*old(self), *final(self)),
    {
        self.books.unapplied = None;
    }

    pub fn freq_ppq(&self) -> (freq: i64)
        ensures
            freq == self.books.freq_cmd_ppq,
    {
        self.books.freq_cmd_ppq
    }

    pub fn drain_ppq(&self) -> (drain: i64)
        ensures
            drain == self.books.drain_ppq,
    {
        self.books.drain_ppq
    }

    pub fn applied_ppq(&self) -> (applied: i64)
        requires
            self.wf(),
        ensures
            applied == self.books.freq_cmd_ppq + self.books.drain_ppq,
    {
        self.books.freq_cmd_ppq + self.books.drain_ppq
    }

    pub fn poll_log2(&self) -> (poll: i8)
        ensures
            poll == self.discipline.poll,
    {
        self.discipline.poll_log2()
    }

    pub fn samples_from(&self, index: usize) -> (samples: usize)
        requires
            self.wf(),
            index < self@.len(),
        ensures
            samples == self@[index as int].len(),
    {
        assert(self.registers@[index as int].wf());
        self.registers[index].len()
    }

    /// Sample `i` of a source's window, oldest first.
    pub fn sample_of(&self, index: usize, i: usize) -> (sample: Sample)
        requires
            self.wf(),
            index < self@.len(),
            i < self@[index as int].len(),
        ensures
            sample == self@[index as int][i as int],
    {
        assert(self.registers@[index as int].wf());
        self.registers[index].get(i)
    }

    pub fn sources(&self) -> (sources: usize)
        ensures
            sources == self@.len(),
    {
        self.registers.len()
    }

    /// Seed the frequency estimate from persisted drift, so a restart does not
    /// re-learn what was already known: the loop starts from it, within its cap.
    pub fn preload_frequency(&mut self, freq_ppq: i64)
        requires
            old(self).wf(),
            -FREQ_LIMIT <= freq_ppq <= FREQ_LIMIT,
        ensures
            final(self).wf(),
            final(self)@ == old(self)@,
            final(self).books == (Books { freq_cmd_ppq: freq_ppq, ..old(self).books }),
            final(self).discipline == preloaded(old(self).discipline, freq_ppq),
            final(self).regress == old(self).regress,
            final(self).max_change == old(self).max_change,
            final(self).refused == old(self).refused,
    {
        self.books.freq_cmd_ppq = freq_ppq;
        let cap: i64 = self.discipline.cfg.max_freq_ppq as i64;
        self.discipline.freq_ppq =
        if freq_ppq > cap {
            cap
        } else if freq_ppq < -cap {
            -cap
        } else {
            freq_ppq
        };
    }

    /// log2 of the interval to use when an exchange is lost: no plan is
    /// produced, but the caller still needs to know when to try again.
    pub fn retry_interval_log2(&self) -> (interval: i8)
        ensures
            interval == self.discipline.interval(),
    {
        self.discipline.retry_interval_log2()
    }

    /// When the running drain will have spent its budget, if one is running.
    pub fn drain_completes_at(&self) -> (at: Option<u128>)
        requires
            self.wf(),
        ensures
            match self.books.completes_at() {
                Some(t) => at is Some && at->Some_0 == t,
                None => at is None,
            },
    {
        let last: u64 = match self.books.booked_until {
            Some(t) => t,
            None => {
                return None;
            },
        };
        if self.books.drain_ppq == 0 || self.books.drain_remaining == 0 {
            return None;
        }
        let rate: u128 = if self.books.drain_ppq < 0 {
            (-(self.books.drain_ppq as i128)) as u128
        } else {
            self.books.drain_ppq as u128
        };
        let owed: u128 = self.books.drain_remaining * 1_000_000_000_000 + (rate - 1);
        proof {
            let x = owed as int;
            let r = rate as int;
            assert(x / r <= x) by (nonlinear_arith)
                requires
                    x >= 0,
                    r >= 1,
            ;
        }
        Some(last as u128 + owed / rate)
    }

    /// End the drain if its budget is spent, returning the command that leaves
    /// the clock running at the frequency term alone.
    ///
    /// What the clock ACTUALLY received is booked, not the budget: a caller that
    /// wakes late has already had the extra correction applied.
    pub fn poll_drain(&mut self, now: u64) -> (command: Option<ClockCommand>)
        requires
            old(self).wf(),
        ensures
            final(self).wf(),
            drain_polled(*old(self), *final(self), now, command),
    {
        match self.drain_completes_at() {
            None => {
                return None;
            },
            Some(at) => {
                if (now as u128) < at {
                    return None;
                }
            },
        }
        let last: u64 = match self.books.booked_until {
            Some(t) => t,
            None => {
                return None;
            },
        };
        let dt: u64 = if now > last { now - last } else { 0 };
        let consumed: i128 = drift(self.books.drain_ppq, dt as i128);
        if consumed != 0 {
            self.slew_all(now, 0, consumed);
        }
        self.books.drain_ppq = 0;
        self.books.drain_remaining = 0;
        self.books.last_plan = Some(now);
        self.books.booked_until = Some(now);
        Some(
            ClockCommand::Slew {
                freq_ppq: self.books.freq_cmd_ppq,
                drain_offset_ps: 0,
                drain_rate_ppq: 0,
            },
        )
    }

    /// Book the drain that has actually run against every register, in full: if
    /// it did not run out it was slewing for the whole interval and delivered
    /// every bit of it.
    fn settle_drain(&mut self, now: u64)
        requires
            old(self).wf(),
        ensures
            final(self).wf(),
            final(self).discipline == old(self).discipline,
            final(self).regress == old(self).regress,
            final(self).max_change == old(self).max_change,
            final(self).refused == old(self).refused,
            final(self).books == old(self).books.settled(now),
            final(self)@ == if old(self).books.drained(now) == 0 {
                old(self)@
            } else {
                let drained = old(self).books.drained(now);
                old(self)@.map_values(|w: Seq<Sample>| slewed_window(w, now, 0, drained))
            },
    {
        if let Some(last) = self.books.booked_until {
            let dt: u64 = if now > last { now - last } else { 0 };
            let drained: i128 = drift(self.books.drain_ppq, dt as i128);
            if drained != 0 {
                self.slew_all(now, 0, drained);
                let moved: u128 = if drained < 0 { (-drained) as u128 } else { drained as u128 };
                self.books.drain_remaining = self.books.drain_remaining.saturating_sub(moved);
            }
            self.books.booked_until = Some(now);
        }
    }

    /// Record one exchange from one source. **Measurement only**: this never
    /// touches the clock, so calling it for a source that is not selected costs
    /// nothing and leaves nothing to undo.
    pub fn observe(&mut self, index: usize, now: u64, sample: Sample) -> (estimate: Estimate)
        requires
            old(self).wf(),
            index < old(self)@.len(),
            old(self)@[index as int].len() > 0 ==> old(self)@[index as int].last().t <= sample.t,
        ensures
            final(self).wf(),
            observed(*old(self), *final(self), index as int, now, sample),
            is_estimate(final(self)@[index as int], final(self).regress, now, estimate),
            -OFFSET_LIMIT <= estimate.offset <= OFFSET_LIMIT,
    {
        let ghost start = *self;
        self.settle_drain(now);
        let ghost settled = *self;
        proof {
            assert(settled@.len() == start@.len());
            assert(settled.registers@.len() == settled@.len());
            assert(self.registers@[index as int].wf());
            assert(settled@[index as int] == settled.registers@[index as int]@);
            let drained = start.books.drained(now);
            if drained != 0 {
                assert(settled@[index as int] == slewed_window(
                    start@[index as int],
                    now,
                    0,
                    drained,
                ));
            }
            if settled@[index as int].len() > 0 {
                assert(settled@[index as int].last().t == start@[index as int].last().t);
            }
        }
        self.registers[index].push(sample);
        proof {
            let window = settled@[index as int].push(sample);
            let target = settled@.update(
                index as int,
                if window.len() <= REGISTER_CAPACITY {
                    window
                } else {
                    window.drop_first()
                },
            );
            assert(self@ =~= target) by {
                assert forall|j: int| 0 <= j < self@.len() implies self@[j] == target[j] by {
                    assert(self@[j] == self.registers@[j]@);
                    if j != index {
                        assert(self.registers@[j] == settled.registers@[j]);
                    }
                }
            }
            assert forall|j: int| 0 <= j < self.registers@.len() implies (
            #[trigger] self.registers@[j]).wf() && self.registers@[j].limit()
                == REGISTER_CAPACITY by {
                if j != index {
                    assert(self.registers@[j] == settled.registers@[j]);
                }
            }
        }
        self.estimate(index, now)
    }

    /// This source's current view of the clock: the regression where there are
    /// enough samples for one; before that the lowest-delay single sample, which
    /// is the least contaminated reading available.
    pub fn estimate(&self, index: usize, now: u64) -> (estimate: Estimate)
        requires
            self.wf(),
            index < self@.len(),
        ensures
            is_estimate(self@[index as int], self.regress, now, estimate),
            -OFFSET_LIMIT <= estimate.offset <= OFFSET_LIMIT,
    {
        assert(self.registers@[index as int].wf());
        let samples: usize = self.registers[index].len();
        match self.registers[index].regress(&self.regress, now) {
            Some(r) => Estimate {
                offset: r.offset,
                freq_ppq: r.freq_ppq,
                sd: if r.offset_sd < NOISE_FLOOR_PS { NOISE_FLOOR_PS } else { r.offset_sd },
                samples,
            },
            None => match self.registers[index].best() {
                Some(best) => {
                    let half: i64 = if best.delay < 0 { 0 } else { best.delay / 2 };
                    Estimate {
                        offset: if best.offset > OFFSET_LIMIT {
                            OFFSET_LIMIT
                        } else if best.offset < -OFFSET_LIMIT {
                            -OFFSET_LIMIT
                        } else {
                            best.offset
                        },
                        freq_ppq: None,
                        sd: if (half as u64) < NOISE_FLOOR_PS {
                            NOISE_FLOOR_PS
                        } else {
                            half as u64
                        },
                        samples,
                    }
                },
                None => Estimate { offset: 0, freq_ppq: None, sd: UNKNOWN_SD_PS, samples },
            },
        }
    }

    /// Steer the clock from one source's estimate: the SELECTED one only. The
    /// effects are booked against every register, because the correction lands
    /// on the one clock they all measure.
    ///
    /// A correction that the guard refuses leaves loop, books and registers as
    /// they are, and the command repeats what the clock is doing already.
    pub fn steer(&mut self, est: Estimate, now: u64) -> (step: ControllerStep)
        requires
            old(self).wf(),
            -OFFSET_LIMIT <= est.offset <= OFFSET_LIMIT,
        ensures
            final(self).wf(),
            steered(*old(self), *final(self), est, now, step),
    {
        let refused_before: u32 = self.refused;
        let verdict: ChangeVerdict = judge(
            self.max_change,
            self.discipline.updates,
            self.refused,
            est.offset,
        );
        match verdict {
            ChangeVerdict::Accepted => {
                self.refused = 0;
            },
            ChangeVerdict::Refused { seen } => {
                self.refused = seen;
            },
            ChangeVerdict::GiveUp => {},
        }
        if verdict != ChangeVerdict::Accepted {
            let owed: i128 = self.books.drain_remaining as i128;
            let command = ClockCommand::Slew {
                freq_ppq: self.books.freq_cmd_ppq,
                drain_offset_ps: if self.books.drain_ppq < 0 { -owed } else { owed },
                drain_rate_ppq: if self.books.drain_ppq < 0 {
                    (-(self.books.drain_ppq as i128)) as u64
                } else {
                    self.books.drain_ppq as u64
                },
            };
            let plan = Plan {
                command,
                next_poll_log2: self.discipline.retry_interval_log2(),
                reset_register: false,
            };
            return ControllerStep {
                plan,
                applied_ppq: self.books.freq_cmd_ppq + self.books.drain_ppq,
                estimate: est,
                verdict,
            };
        }
        let discipline_before: Discipline = self.discipline;
        let plan: Plan = self.discipline.on_estimate(est.offset, est.freq_ppq, est.sd);
        let freq_new: i64 = self.discipline.freq_ppq();
        let dfreq: i64 = freq_new - self.books.freq_cmd_ppq;
        let (step, drain, remaining): (i128, i64, u128) = match plan.command {
            ClockCommand::Step { add_ps } => (add_ps, 0, 0),
            ClockCommand::Slew { drain_offset_ps, drain_rate_ppq, .. } => {
                if drain_offset_ps < 0 {
                    (0, -(drain_rate_ppq as i64), (-drain_offset_ps) as u128)
                } else {
                    (0, drain_rate_ppq as i64, drain_offset_ps as u128)
                }
            },
        };
        self.slew_all(now, dfreq, step);
        self.books = Books {
            freq_cmd_ppq: freq_new,
            drain_ppq: drain,
            drain_remaining: remaining,
            last_plan: Some(now),
            booked_until: Some(now),
            unapplied: Some(
                Unapplied {
                    mono: now,
                    dfreq_ppq: dfreq,
                    step,
                    freq_cmd_before: self.books.freq_cmd_ppq,
                    drain_ppq_before: self.books.drain_ppq,
                    drain_remaining_before: self.books.drain_remaining,
                    last_plan_before: self.books.last_plan,
                    booked_until_before: self.books.booked_until,
                    discipline_before,
                    refused_before,
                },
            ),
        };
        ControllerStep {
            plan,
            applied_ppq: self.books.freq_cmd_ppq + self.books.drain_ppq,
            estimate: est,
            verdict,
        }
    }
}

/// One source, one clock loop.
pub struct SyncController {
    pub inner: MultiController,
}

impl SyncController {
    pub open spec fn wf(&self) -> bool {
        self.inner.wf() && self.inner@.len() == 1
    }

    /// The samples held.
    pub open spec fn window(&self) -> Seq<Sample> {
        self.inner@[0]
    }

    pub fn new(config: DisciplineConfig, max_change: Option<MaxChange>) -> (c: Self)
        requires
            config.fits(),
        ensures
            c.wf(),
            c.window() == Seq::<Sample>::empty(),
            c.inner.discipline == crate::discipline::fresh(config),
            c.inner.books == no_books(),
            c.inner.regress == default_weighting(),
            c.inner.max_change == max_change,
            c.inner.refused == 0,
    {
        SyncController { inner: MultiController::new(config, 1, max_change) }
    }

    /// Feed one completed exchange and get the resulting plan. `sample.t` is the
    /// exchange's midpoint on the same timescale as `now`.
    pub fn on_sample(&mut self, now: u64, sample: Sample) -> (step: ControllerStep)
        requires
            old(self).wf(),
            old(self).window().len() > 0 ==> old(self).window().last().t <= sample.t,
        ensures
            final(self).wf(),
            exists|mid: MultiController, est: Estimate|
                {
                    &&& #[trigger] observed(old(self).inner, mid, 0, now, sample)
                    &&& is_estimate(mid@[0], mid.regress, now, est)
                    &&& #[trigger] steered(mid, final(self).inner, est, now, step)
                },
    {
        let est: Estimate = self.inner.observe(0, now, sample);
        let ghost mid = self.inner;
        let step: ControllerStep = self.inner.steer(est, now);
        assert(observed(old(self).inner, mid, 0, now, sample));
        assert(steered(mid, self.inner, est, now, step));
        step
    }

    pub fn revert_last_plan(&mut self) -> (reverted: bool)
        requires
            old(self).wf(),
        ensures
            final(self).wf(),
            plan_reverted(old(self).inner, final(self).inner),
            reverted == old(self).inner.books.unapplied is Some,
    {
        self.inner.revert_last_plan()
    }

    pub fn confirm_last_plan(&mut self)
        requires
            old(self).wf(),
        ensures
            final(self).wf(),
            plan_confirmed(old(self).inner, final(self).inner),
    {
        self.inner.confirm_last_plan()
    }

    pub fn freq_ppq(&self) -> (freq: i64)
        ensures
            freq == self.inner.books.freq_cmd_ppq,
    {
        self.inner.freq_ppq()
    }

    pub fn drain_ppq(&self) -> (drain: i64)
        ensures
            drain == self.inner.books.drain_ppq,
    {
        self.inner.drain_ppq()
    }

    pub fn applied_ppq(&self) -> (applied: i64)
        requires
            self.wf(),
        ensures
            applied == self.inner.books.freq_cmd_ppq + self.inner.books.drain_ppq,
    {
        self.inner.applied_ppq()
    }

    pub fn poll_log2(&self) -> (poll: i8)
        ensures
            poll == self.inner.discipline.poll,
    {
        self.inner.poll_log2()
    }

    pub fn samples(&self) -> (samples: usize)
        requires
            self.wf(),
        ensures
            samples == self.window().len(),
    {
        self.inner.samples_from(0)
    }

    pub fn preload_frequency(&mut self, freq_ppq: i64)
        requires
            old(self).wf(),
            -FREQ_LIMIT <= freq_ppq <= FREQ_LIMIT,
        ensures
            final(self).wf(),
            final(self).window() == old(self).window(),
            final(self).inner.books == (Books {
                freq_cmd_ppq: freq_ppq,
                ..old(self).inner.books
            }),
            final(self).inner.discipline == preloaded(old(self).inner.discipline, freq_ppq),
            final(self).inner.regress == old(self).inner.regress,
            final(self).inner.max_change == old(self).inner.max_change,
            final(self).inner.refused == old(self).inner.refused,
    {
        self.inner.preload_frequency(freq_ppq)
    }

    pub fn retry_interval_log2(&self) -> (interval: i8)
        ensures
            interval == self.inner.discipline.interval(),
    {
        self.inner.retry_interval_log2()
    }

    pub fn drain_completes_at(&self) -> (at: Option<u128>)
        requires
            self.wf(),
        ensures
            match self.inner.books.completes_at() {
                Some(t) => at is Some && at->Some_0 == t,
                None => at is None,
            },
    {
        self.inner.drain_completes_at()
    }

    pub fn poll_drain(&mut self, now: u64) -> (command: Option<ClockCommand>)
        requires
            old(self).wf(),
        ensures
            final(self).wf(),
            drain_polled(old(self).inner, final(self).inner, now, command),
    {
        self.inner.poll_drain(now)
    }
}

/// A loop that starts from a known frequency, within its cap.
pub open spec fn preloaded(before: Discipline, freq_ppq: i64) -> Discipline {
    Discipline {
        freq_ppq: within(freq_ppq as int, before.cfg.max_freq_ppq as int) as i64,
        ..before
    }
}

/// Books in which nothing has happened.
pub open spec fn no_books() -> Books {
    Books {
        freq_cmd_ppq: 0,
        drain_ppq: 0,
        drain_remaining: 0,
        last_plan: None,
        booked_until: None,
        unapplied: None,
    }
}

/// Whether `after` is `before` with the last plan undone: loop, books, registers
/// and refusals are what they were before it.
pub open spec fn plan_reverted(before: MultiController, after: MultiController) -> bool {
    &&& after.books == before.books.reverted()
    &&& after@ == match before.books.unapplied {
        None => before@,
        Some(u) => before@.map_values(
            |w: Seq<Sample>| slewed_window(w, u.mono, -(u.dfreq_ppq as int), -(u.step as int)),
        ),
    }
    &&& after.discipline == match before.books.unapplied {
        None => before.discipline,
        Some(u) => u.discipline_before,
    }
    &&& after.regress == before.regress
    &&& after.max_change == before.max_change
    &&& after.refused == match before.books.unapplied {
        None => before.refused,
        Some(u) => u.refused_before,
    }
}

/// Whether `after` is `before` with the last plan booked for good.
pub open spec fn plan_confirmed(before: MultiController, after: MultiController) -> bool {
    &&& after@ == before@
    &&& after.books == (Books { unapplied: None, ..before.books })
    &&& after.discipline == before.discipline
    &&& after.regress == before.regress
    &&& after.max_change == before.max_change
    &&& after.refused == before.refused
}

/// Whether `after` and `command` are what polling the drain makes of `before`: a
/// drain whose budget is spent ends, and what it delivered is booked.
pub open spec fn drain_polled(
    before: MultiController,
    after: MultiController,
    now: u64,
    command: Option<ClockCommand>,
) -> bool {
    let due = before.books.completes_at() is Some && before.books.completes_at()->Some_0 <= now;
    let consumed = before.books.drained(now);
    &&& after.discipline == before.discipline
    &&& after.regress == before.regress
    &&& after.max_change == before.max_change
    &&& after.refused == before.refused
    &&& due ==> command == Some(
        ClockCommand::Slew {
            freq_ppq: before.books.freq_cmd_ppq,
            drain_offset_ps: 0,
            drain_rate_ppq: 0,
        },
    ) && after.books == before.books.retired(now) && after@ == if consumed == 0 {
        before@
    } else {
        before@.map_values(|w: Seq<Sample>| slewed_window(w, now, 0, consumed))
    }
    &&& !due ==> command is None && after.books == before.books && after@ == before@
}

/// Whether `after` is `before` with one sample of source `index` recorded.
pub open spec fn observed(
    before: MultiController,
    after: MultiController,
    index: int,
    now: u64,
    sample: Sample,
) -> bool {
    let drained = before.books.drained(now);
    let booked = if drained == 0 {
        before@
    } else {
        before@.map_values(|w: Seq<Sample>| slewed_window(w, now, 0, drained))
    };
    let window = booked[index].push(sample);
    &&& after.discipline == before.discipline
    &&& after.regress == before.regress
    &&& after.max_change == before.max_change
    &&& after.refused == before.refused
    &&& after.books == before.books.settled(now)
    &&& after@ == booked.update(
        index,
        if window.len() <= REGISTER_CAPACITY {
            window
        } else {
            window.drop_first()
        },
    )
}

/// Whether `after` and `step` are what steering by `est` makes of `before`: an
/// accepted correction is planned and booked, any other changes nothing but the
/// count of refusals.
pub open spec fn steered(
    before: MultiController,
    after: MultiController,
    est: Estimate,
    now: u64,
    step: ControllerStep,
) -> bool {
    let plan = before.discipline.plan(est.offset as int, est.freq_ppq, est.sd);
    let next = before.discipline.after(est.offset as int, est.freq_ppq, est.sd);
    let books = before.books.planned(
        plan.command,
        next.freq_ppq,
        now,
        before.discipline,
        before.refused,
    );
    let undo = books.unapplied->Some_0;
    &&& after.regress == before.regress
    &&& after.max_change == before.max_change
    &&& step.estimate == est
    &&& step.applied_ppq == after.books.freq_cmd_ppq + after.books.drain_ppq
    &&& step.verdict == change_verdict(
        before.max_change,
        before.discipline.updates + 1,
        before.refused,
        est.offset as int,
    )
    &&& after.refused == refusals_after(step.verdict, before.refused)
    &&& step.verdict is Accepted ==> {
        &&& step.plan == plan
        &&& after.discipline == next
        &&& after.books == books
        &&& after@ == before@.map_values(
            |w: Seq<Sample>| slewed_window(w, now, undo.dfreq_ppq as int, undo.step as int),
        )
    }
    &&& !(step.verdict is Accepted) ==> {
        &&& step.plan == (Plan {
            command: before.standing_command(),
            next_poll_log2: before.discipline.interval() as i8,
            reset_register: false,
        })
        &&& after.discipline == before.discipline
        &&& after.books == before.books
        &&& after@ == before@
    }
}

/// Whether `estimate` is a source's view of the clock, given its window: what a
/// regression comes to, and with fewer than three samples the best single one.
pub open spec fn is_estimate(
    window: Seq<Sample>,
    config: RegressConfig,
    now: u64,
    estimate: Estimate,
) -> bool {
    &&& estimate.samples == window.len()
    &&& if window.len() >= 3 {
        exists|r: RegressEstimate| #[trigger]
            is_regression(window, config, now, r) && estimate.offset == r.offset
                && estimate.freq_ppq == r.freq_ppq && estimate.sd == if r.offset_sd
                < NOISE_FLOOR_PS {
                NOISE_FLOOR_PS
            } else {
                r.offset_sd
            }
    } else if window.len() == 0 {
        estimate == (Estimate { offset: 0, freq_ppq: None, sd: UNKNOWN_SD_PS, samples: 0 })
    } else {
        exists|k: int| #[trigger]
            is_best(window, k) && estimate.offset == within(
                window[k].offset as int,
                OFFSET_LIMIT as int,
            ) && estimate.freq_ppq is None && estimate.sd == ({
                let half = if window[k].delay < 0 {
                    0
                } else {
                    window[k].delay as int / 2
                };
                if half < NOISE_FLOOR_PS {
                    NOISE_FLOOR_PS as int
                } else {
                    half
                }
            })
    }
}

/// Whether no sample of a window comes near what can be held when the clock is
/// changed like this.
pub open spec fn has_room(window: Seq<Sample>, t_change: u64, dfreq: int, doffset: int) -> bool {
    forall|i: int|
        0 <= i < window.len() ==> i128::MIN <= (#[trigger] window[i]).offset
            - crate::filter::shift_of(window[i], t_change, dfreq, doffset) <= i128::MAX
}

proof fn lemma_windows_go_back(windows: Seq<Seq<Sample>>, t: u64, dfreq: int, step: int)
    requires
        forall|i: int| 0 <= i < windows.len() ==> has_room(#[trigger] windows[i], t, dfreq, step),
    ensures
        windows.map_values(|w: Seq<Sample>| slewed_window(w, t, dfreq, step)).map_values(
            |w: Seq<Sample>| slewed_window(w, t, -dfreq, -step),
        ) == windows,
{
    let f = |w: Seq<Sample>| slewed_window(w, t, dfreq, step);
    let g = |w: Seq<Sample>| slewed_window(w, t, -dfreq, -step);
    assert forall|i: int| 0 <= i < windows.len() implies windows.map_values(f).map_values(g)[i]
        == windows[i] by {
        let w = windows[i];
        assert(has_room(w, t, dfreq, step));
        assert(g(f(w)) =~= w) by {
            assert forall|j: int| 0 <= j < w.len() implies g(f(w))[j] == w[j] by {
                crate::filter::slewing_back_restores(w[j], t, dfreq, step);
            }
        }
    }
    assert(windows.map_values(f).map_values(g) =~= windows);
}

/// Whether two controllers are alike in everything but whether a plan can be
/// undone.
pub open spec fn same_controller(a: MultiController, b: MultiController) -> bool {
    &&& a@ == b@
    &&& a.discipline == b.discipline
    &&& (Books { unapplied: None, ..a.books }) == (Books { unapplied: None, ..b.books })
    &&& a.regress == b.regress
    &&& a.max_change == b.max_change
    &&& a.refused == b.refused
}

/// Whether no sample of a controller comes near what can be held when the
/// estimate is acted on.
pub open spec fn has_room_for(before: MultiController, est: Estimate, now: u64) -> bool {
    let plan = before.discipline.plan(est.offset as int, est.freq_ppq, est.sd);
    let next = before.discipline.after(est.offset as int, est.freq_ppq, est.sd);
    let undo = before.books.planned(
        plan.command,
        next.freq_ppq,
        now,
        before.discipline,
        before.refused,
    ).unapplied->Some_0;
    forall|i: int|
        0 <= i < before@.len() ==> has_room(
            #[trigger] before@[i],
            now,
            undo.dfreq_ppq as int,
            undo.step as int,
        )
}

/// A refused command leaves no trace: reverting the plan that was just made
/// leaves the controller exactly as it was, loop, books and every sample, and so
/// every source's estimate.
pub proof fn a_refused_command_leaves_no_trace(
    before: MultiController,
    planned: MultiController,
    after: MultiController,
    est: Estimate,
    now: u64,
    step: ControllerStep,
)
    requires
        before.wf(),
        planned.wf(),
        steered(before, planned, est, now, step),
        step.verdict is Accepted,
        plan_reverted(planned, after),
        has_room_for(before, est, now),
    ensures
        same_controller(before, after),
        after.books.unapplied is None,
        forall|i: int, t: u64, e: Estimate|
            0 <= i < before@.len() ==> (#[trigger] is_estimate(after@[i], after.regress, t, e)
                <==> is_estimate(before@[i], before.regress, t, e)),
{
    let undo = planned.books.unapplied->Some_0;
    lemma_windows_go_back(before@, now, undo.dfreq_ppq as int, undo.step as int);
    assert(undo.mono == now);
}

/// A refused command is counted once: the same estimate steered again after a
/// revert gives the same step and leaves the same controller.
pub proof fn steering_again_repeats_the_step(
    before: MultiController,
    planned: MultiController,
    reverted: MultiController,
    again: MultiController,
    est: Estimate,
    now: u64,
    step: ControllerStep,
    repeated: ControllerStep,
)
    requires
        before.wf(),
        planned.wf(),
        steered(before, planned, est, now, step),
        step.verdict is Accepted,
        plan_reverted(planned, reverted),
        has_room_for(before, est, now),
        steered(reverted, again, est, now, repeated),
    ensures
        repeated == step,
        again.books == planned.books,
        same_controller(again, planned),
{
    a_refused_command_leaves_no_trace(before, planned, reverted, est, now, step);
}

/// Measuring does not move the end of a running drain: it stays where it was, up
/// to the time that one picosecond of it takes.
pub proof fn measuring_leaves_the_end_in_place(books: Books, now: u64)
    requires
        books.wf(),
        books.completes_at() is Some,
        books.booked_until->Some_0 <= now < books.completes_at()->Some_0,
    ensures
        ({
            let rate = size(books.drain_ppq as int) as int;
            let one = (1_000_000_000_000 + rate - 1) / rate;
            &&& books.settled(now).completes_at() is Some
            &&& books.completes_at()->Some_0 <= books.settled(now).completes_at()->Some_0
                <= books.completes_at()->Some_0 + one
        }),
{
    let rate = size(books.drain_ppq as int) as int;
    let unit: int = 1_000_000_000_000;
    let owed: int = books.drain_remaining * unit;
    let last = books.booked_until->Some_0;
    let dt = elapsed(last, now);
    let wait = (owed + rate - 1) / rate;
    let x = books.drain_ppq * dt;
    assert(size(x) == rate * dt) by (nonlinear_arith)
        requires
            x == books.drain_ppq * dt,
            rate == size(books.drain_ppq as int),
            dt >= 0,
    ;
    let d = size(drift_ps(books.drain_ppq as int, dt)) as int;
    assert(d == (rate * dt) / unit);
    let run = rate * dt;
    assert(run >= 0) by (nonlinear_arith)
        requires
            run == rate * dt,
            rate >= 0,
            dt >= 0,
    ;
    assert(run < owed) by (nonlinear_arith)
        requires
            run == rate * dt,
            dt < (owed + rate - 1) / rate,
            rate >= 1,
    ;
    assert(d < books.drain_remaining);
    let left = owed - d * unit;
    assert(owed - run <= left < owed - run + unit);
    assert((books.drain_remaining - d) * unit == left);
    let wait2 = (left + rate - 1) / rate;
    let one = (unit + rate - 1) / rate;
    assert(wait - dt <= wait2 <= wait - dt + one) by (nonlinear_arith)
        requires
            rate >= 1,
            wait == (owed + rate - 1) / rate,
            wait2 == (left + rate - 1) / rate,
            one == (unit + rate - 1) / rate,
            owed - rate * dt <= left <= owed - rate * dt + unit,
    ;
}

/// Reverting twice is reverting once.
pub proof fn reverting_twice_is_reverting_once(books: Books)
    ensures
        books.reverted().reverted() == books.reverted(),
        books.unapplied is None ==> books.reverted() == books,
{
}

/// A drain is booked exactly once: settling at one time and again at the same
/// time books nothing more.
pub proof fn a_drain_is_booked_once(books: Books, now: u64)
    requires
        books.wf(),
    ensures
        books.settled(now).drained(now) == 0,
        books.settled(now).settled(now) == books.settled(now),
{
    assert(books.drain_ppq * 0 == 0) by (nonlinear_arith);
}

/// A drain ends when its budget is spent, not before: by the time it is due, it
/// has delivered all that it owed.
pub proof fn a_due_drain_has_delivered(books: Books, now: u64)
    requires
        books.wf(),
        books.completes_at() is Some,
        books.completes_at()->Some_0 <= now,
    ensures
        size(books.drained(now)) >= books.drain_remaining,
{
    let rate = size(books.drain_ppq as int) as int;
    let owed: int = books.drain_remaining * 1_000_000_000_000;
    let wait = (owed + rate - 1) / rate;
    let last = books.booked_until->Some_0;
    let dt = elapsed(last, now);
    assert(rate * wait >= owed) by {
        vstd::arithmetic::div_mod::lemma_fundamental_div_mod(owed + rate - 1, rate);
        vstd::arithmetic::div_mod::lemma_mod_bound(owed + rate - 1, rate);
    }
    assert(wait >= 0) by (nonlinear_arith)
        requires
            owed >= 0,
            rate >= 1,
            wait == (owed + rate - 1) / rate,
    ;
    assert(dt >= wait);
    assert(rate * dt >= rate * wait) by (nonlinear_arith)
        requires
            dt >= wait,
            rate >= 0,
    ;
    let x = books.drain_ppq * dt;
    assert(size(x) == rate * dt) by (nonlinear_arith)
        requires
            x == books.drain_ppq * dt,
            rate == size(books.drain_ppq as int),
            dt >= 0,
    ;
    assert(size(drift_ps(books.drain_ppq as int, dt)) == size(x) / 1_000_000_000_000);
}

/// Without a bound every correction is accepted, and with one a correction
/// within it always is.
pub proof fn small_changes_are_accepted(
    limit: Option<MaxChange>,
    update: int,
    refused: u32,
    offset: int,
)
    requires
        limit is None || size(offset) <= limit->Some_0.offset || update <= limit->Some_0.start,
    ensures
        change_verdict(limit, update, refused, offset) is Accepted,
{
}

/// With a bound that gives up after `ignore` refusals, the refusals in a row
/// never pass `ignore`.
pub proof fn refusals_end_in_giving_up(m: MaxChange, update: int, refused: u32, offset: int)
    requires
        m.ignore >= 0,
        refused <= m.ignore,
    ensures
        refusals_after(change_verdict(Some(m), update, refused, offset), refused) <= m.ignore,
{
}

} // verus!
