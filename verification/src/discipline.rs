//! The clock-discipline loop: turn estimates into clock commands.
//!
//! The platform driver executes [`ClockCommand`]s; this module only decides.
//! Frequency corrections come straight from the regression slope: the estimator
//! measures frequency directly, so no PLL time constant is needed.
//!
//! Offsets and noise are picoseconds, frequencies parts per quadrillion
//! (10^-15); a rate is rounded down.

use vstd::arithmetic::power2::{lemma2_to64, lemma2_to64_rest, lemma_pow2_adds, pow2};
use vstd::prelude::*;

use crate::arith::{lemma_pow2_at_most, power_of_two, quotient, size, toward_zero, within};

verus! {

/// The largest offset handled, 2^80 ps: some 38 thousand years.
pub const OFFSET_LIMIT: i128 = 0x1_0000_0000_0000_0000_0000;

/// The largest frequency handled, in parts per quadrillion.
pub const FREQ_LIMIT: i64 = 0x3FFF_FFFF_FFFF_FFFF;

/// Number of quick polls in an initial burst.
pub const IBURST_COUNT: u32 = 4;

/// log2 of the seconds between the polls of a burst.
pub const IBURST_SPACING_LOG2: i8 = 1;

/// Drain a measured offset over roughly this many poll intervals.
pub const CORR_TIME_RATIO: u128 = 3;

/// How far outside the noise an offset must sit to be treated as real.
pub const ACQUIRE_NOISE_MULTIPLE: u128 = 10;

/// How many updates count as acquisition: it is a phase, not a magnitude.
pub const ACQUIRE_UPDATES: u32 = 8;

/// The fast correction may ask for one in this many parts of the slew budget.
pub const ACQUIRE_SLEW_PARTS: u128 = 4;

/// How many times the noise an offset must exceed before the clock may be
/// hauled at the full slew ceiling.
pub const ACQUIRE_FULL_SPEED_CONFIDENCE: u128 = 10_000;

/// Above one in this many parts of the slew ceiling, the clock is being
/// *hauled*, and a frequency measured across that haul is not a measurement of
/// the oscillator.
pub const FREQ_TRUST_SLEW_PARTS: u128 = 4;

/// Most polls the acquisition burst may take before it must slow down: a client
/// that cannot converge must back off rather than keep asking every two seconds.
pub const MAX_ACQUIRE_BURST: u32 = 16;

/// The offset at which acquisition is finished and the burst may end: 1 ms.
pub const ACQUIRE_DONE_PS: u128 = 1_000_000_000;

/// The least noise an estimate is credited with: 0.1 us.
pub const NOISE_FLOOR_PS: u64 = 100_000;

/// Configuration of the loop.
#[derive(Clone, Copy, Debug, PartialEq, Eq, Structural)]
pub struct DisciplineConfig {
    /// Step (rather than slew) when |offset| exceeds this, during the first
    /// `makestep_limit` updates. `None` = never step.
    pub makestep_threshold: Option<u128>,
    pub makestep_limit: u32,
    /// Cap on offset-correction slew rate.
    pub max_slew_ppq: u64,
    /// Cap on the absolute frequency correction we will command.
    pub max_freq_ppq: u64,
    /// log2 seconds.
    pub min_poll: i8,
    pub max_poll: i8,
    /// Send an initial burst of quick polls to converge fast.
    pub iburst: bool,
    /// Gain of the integral trim on the frequency estimate, in millionths. 0
    /// disables it, leaving a purely proportional loop.
    pub freq_integral_gain_micro: i64,
    /// Step the poll interval back DOWN when the offset exceeds the noise by
    /// this many thousandths.
    pub poll_down_noise_ratio_milli: u64,
    /// Consecutive stable samples required before the poll interval doubles.
    pub poll_up_streak: u32,
    /// Absolute steady-state correction time, nanoseconds. 0 keeps the default
    /// behaviour of a multiple of the poll interval.
    pub corr_time_ns: u64,
}

impl DisciplineConfig {
    /// Whether the loop's arithmetic can hold what this configuration asks for.
    pub open spec fn fits(self) -> bool {
        &&& self.max_slew_ppq <= FREQ_LIMIT
        &&& self.max_freq_ppq <= FREQ_LIMIT
    }
}

impl Default for DisciplineConfig {
    fn default() -> (config: Self)
        ensures
            config.fits(),
            config.makestep_threshold == Some(1_000_000_000_000u128),
            config.makestep_limit == 3,
            config.max_slew_ppq == 83_333_000_000_000,
            config.max_freq_ppq == 500_000_000_000,
            config.min_poll == 6,
            config.max_poll == 10,
            config.iburst,
            config.freq_integral_gain_micro == 0,
            config.poll_down_noise_ratio_milli == 10_000,
            config.poll_up_streak == 3,
            config.corr_time_ns == 0,
    {
        DisciplineConfig {
            makestep_threshold: Some(1_000_000_000_000),
            makestep_limit: 3,
            max_slew_ppq: 83_333_000_000_000,
            max_freq_ppq: 500_000_000_000,
            min_poll: 6,
            max_poll: 10,
            iburst: true,
            freq_integral_gain_micro: 0,
            poll_down_noise_ratio_milli: 10_000,
            poll_up_streak: 3,
            corr_time_ns: 0,
        }
    }
}

/// What the platform driver should do right now.
#[derive(Clone, Copy, Debug, PartialEq, Eq, Structural)]
pub enum ClockCommand {
    /// Add this much to the clock immediately.
    Step { add_ps: i128 },
    /// Run at `freq_ppq` (absolute correction vs the undisciplined clock) and
    /// additionally drain `drain_offset_ps` at up to `drain_rate_ppq`.
    Slew { freq_ppq: i64, drain_offset_ps: i128, drain_rate_ppq: u64 },
}

#[derive(Clone, Copy, Debug, PartialEq, Eq, Structural)]
pub struct Plan {
    pub command: ClockCommand,
    /// log2 of the seconds until the next poll.
    pub next_poll_log2: i8,
    /// The sample register is invalid after a step; caller must shift or clear it.
    pub reset_register: bool,
}

/// The state of the loop.
#[derive(Clone, Copy, Debug, PartialEq, Eq, Structural)]
pub struct Discipline {
    pub cfg: DisciplineConfig,
    pub freq_ppq: i64,
    pub updates: u32,
    pub poll: i8,
    pub stable_streak: u32,
    pub iburst_left: u32,
    /// Drain rate the previous plan commanded. Samples taken since then were
    /// taken while the clock moved at that rate.
    pub last_drain_ppq: u64,
    /// Burst polls used, including any the acquisition extension granted.
    pub burst_used: u32,
    /// Slow average of recent offset estimates: a *persistent* offset is the
    /// signature of a frequency error the regression has not measured.
    pub offset_ewma: i128,
    /// Whether `offset_ewma` has been seeded.
    pub ewma_seeded: bool,
}

/// A counter one higher, or where it was if it cannot go higher.
pub open spec fn one_more(n: u32) -> u32 {
    if n < u32::MAX {
        (n + 1) as u32
    } else {
        n
    }
}

/// The rate that moves the clock by `ps` picoseconds in `ratio` times two to the
/// `interval` seconds.
pub open spec fn rate_over(ps: nat, ratio: nat, interval: int) -> nat {
    if interval >= 0 {
        ps * 1000 / (ratio * pow2(interval as nat))
    } else {
        ps * 1000 * pow2((-interval) as nat) / ratio
    }
}

/// The noise an estimate is credited with.
pub open spec fn noise_of(sd: u64) -> nat {
    if sd < NOISE_FLOOR_PS {
        NOISE_FLOOR_PS as nat
    } else {
        sd as nat
    }
}

impl Discipline {
    /// What holds of the loop between updates.
    pub open spec fn wf(self) -> bool {
        &&& self.cfg.fits()
        &&& -self.cfg.max_freq_ppq <= self.freq_ppq <= self.cfg.max_freq_ppq
        &&& self.cfg.min_poll <= self.poll
        &&& self.poll <= self.cfg.max_poll || self.poll == self.cfg.min_poll
        &&& self.last_drain_ppq <= self.cfg.max_slew_ppq
        &&& -OFFSET_LIMIT <= self.offset_ewma <= OFFSET_LIMIT
        &&& self.iburst_left + self.burst_used <= MAX_ACQUIRE_BURST
    }

    /// log2 of the interval that the next plan will use.
    pub open spec fn interval(self) -> int {
        if self.iburst_left > 0 {
            IBURST_SPACING_LOG2 as int
        } else {
            self.poll as int
        }
    }

    /// The loop after it spent one poll slot.
    pub open spec fn slot_taken(self) -> Discipline {
        if self.iburst_left > 0 {
            Discipline {
                iburst_left: (self.iburst_left - 1) as u32,
                burst_used: (self.burst_used + 1) as u32,
                ..self
            }
        } else {
            self
        }
    }

    /// Whether this update is stepped away: a large offset, early on.
    pub open spec fn steps(self, offset: int) -> bool {
        &&& self.cfg.makestep_threshold is Some
        &&& size(offset) > self.cfg.makestep_threshold->Some_0
        &&& one_more(self.updates) <= self.cfg.makestep_limit
    }

    /// Whether samples since the last plan were taken while the clock was being
    /// hauled.
    pub open spec fn hauling(self) -> bool {
        self.last_drain_ppq * FREQ_TRUST_SLEW_PARTS > self.cfg.max_slew_ppq
    }

    /// The loop with the measured residual frequency added in full, unless the
    /// measurement was taken during a haul.
    pub open spec fn tuned(self, measured: Option<i64>) -> Discipline {
        if measured is Some && !self.hauling() {
            Discipline {
                freq_ppq: within(
                    self.freq_ppq + measured->Some_0,
                    self.cfg.max_freq_ppq as int,
                ) as i64,
                ..self
            }
        } else {
            self
        }
    }

    /// The loop with one more offset in its slow average, at a weight of a
    /// quarter.
    pub open spec fn averaged(self, offset: int) -> Discipline {
        if self.ewma_seeded {
            Discipline {
                offset_ewma: toward_zero(3 * self.offset_ewma + offset, 4) as i128,
                ..self
            }
        } else {
            Discipline { offset_ewma: offset as i128, ewma_seeded: true, ..self }
        }
    }

    /// The loop with a standing offset read as the frequency error it implies,
    /// and a fraction of it absorbed: only once acquisition is over, and only
    /// where the offset is larger than the noise that could have produced it.
    pub open spec fn trimmed(self, noise: nat) -> Discipline {
        if self.cfg.freq_integral_gain_micro != 0 && self.updates > ACQUIRE_UPDATES && size(
            self.offset_ewma as int,
        ) > noise {
            let implied = within(
                rate_over(
                    size(self.offset_ewma as int),
                    CORR_TIME_RATIO as nat,
                    self.interval(),
                ) as int,
                FREQ_LIMIT as int,
            );
            let signed = if self.offset_ewma < 0 {
                -implied
            } else {
                implied
            };
            Discipline {
                freq_ppq: within(
                    self.freq_ppq + toward_zero(
                        self.cfg.freq_integral_gain_micro * signed,
                        1_000_000,
                    ),
                    self.cfg.max_freq_ppq as int,
                ) as i64,
                ..self
            }
        } else {
            self
        }
    }

    /// The loop with its poll interval adapted: longer when quiet for long
    /// enough, shorter when the offset is loud relative to the noise.
    pub open spec fn paced(self, offset: int, noise: nat) -> Discipline {
        if size(offset) < 2 * noise {
            let streak = one_more(self.stable_streak);
            if streak >= self.cfg.poll_up_streak && self.poll < self.cfg.max_poll {
                Discipline { poll: (self.poll + 1) as i8, stable_streak: 0, ..self }
            } else {
                Discipline { stable_streak: streak, ..self }
            }
        } else if size(offset) * 1000 > self.cfg.poll_down_noise_ratio_milli * noise && self.poll
            > self.cfg.min_poll {
            Discipline { poll: (self.poll - 1) as i8, stable_streak: 0, ..self }
        } else {
            Discipline { stable_streak: 0, ..self }
        }
    }

    /// The loop with its burst kept going while a correction is outstanding, as
    /// far as the burst may go.
    pub open spec fn extended(self, offset: int, noise: nat) -> Discipline {
        if self.iburst_left == 0 && self.cfg.iburst && self.burst_used < MAX_ACQUIRE_BURST && size(
            offset,
        ) > ACQUIRE_DONE_PS && size(offset) > 2 * noise {
            Discipline { iburst_left: 1, ..self }
        } else {
            self
        }
    }

    /// How fast an offset is drained: gently by default, faster while acquiring
    /// an offset that is plainly real, never past the slew ceiling.
    pub open spec fn drain_rate(self, offset: int, noise: nat) -> nat {
        let ceiling = self.cfg.max_slew_ppq as nat;
        let wanted = if self.updates <= ACQUIRE_UPDATES && size(offset) > ACQUIRE_NOISE_MULTIPLE
            * noise {
            let share = if size(offset) >= ACQUIRE_FULL_SPEED_CONFIDENCE * noise {
                ceiling
            } else {
                (ceiling / ACQUIRE_SLEW_PARTS as nat) as nat
            };
            let fast = rate_over(size(offset), 1, self.interval());
            if fast < share {
                fast
            } else {
                share
            }
        } else if self.cfg.corr_time_ns > 0 {
            (size(offset) * 1_000_000_000_000 / self.cfg.corr_time_ns as nat) as nat
        } else {
            rate_over(size(offset), CORR_TIME_RATIO as nat, self.interval())
        };
        if wanted < ceiling {
            wanted
        } else {
            ceiling
        }
    }

    /// The loop, ready to plan, after an estimate that is not stepped away.
    pub open spec fn ready(self, offset: int, measured: Option<i64>, noise: nat) -> Discipline {
        Discipline { updates: one_more(self.updates), ..self }.tuned(measured).averaged(
            offset,
        ).trimmed(noise).paced(offset, noise).extended(offset, noise)
    }

    /// The loop after an estimate.
    pub open spec fn after(self, offset: int, measured: Option<i64>, sd: u64) -> Discipline {
        let noise = noise_of(sd);
        if self.steps(offset) {
            Discipline { updates: one_more(self.updates), stable_streak: 0, ..self }.slot_taken()
        } else {
            let ready = self.ready(offset, measured, noise);
            Discipline {
                last_drain_ppq: ready.drain_rate(offset, noise) as u64,
                ..ready
            }.slot_taken()
        }
    }

    /// What an estimate makes the loop command.
    pub open spec fn plan(self, offset: int, measured: Option<i64>, sd: u64) -> Plan {
        let noise = noise_of(sd);
        if self.steps(offset) {
            Plan {
                command: ClockCommand::Step { add_ps: offset as i128 },
                next_poll_log2: self.interval() as i8,
                reset_register: true,
            }
        } else {
            let ready = self.ready(offset, measured, noise);
            Plan {
                command: ClockCommand::Slew {
                    freq_ppq: ready.freq_ppq,
                    drain_offset_ps: offset as i128,
                    drain_rate_ppq: ready.drain_rate(offset, noise) as u64,
                },
                next_poll_log2: ready.interval() as i8,
                reset_register: false,
            }
        }
    }
}


fn size_of_offset(x: i128) -> (n: u128)
    requires
        -OFFSET_LIMIT <= x <= OFFSET_LIMIT,
    ensures
        n == size(x as int),
        n <= OFFSET_LIMIT,
{
    if x < 0 {
        (-x) as u128
    } else {
        x as u128
    }
}

fn hold(x: i128, limit: u64) -> (held: i64)
    requires
        limit <= FREQ_LIMIT,
    ensures
        held == within(x as int, limit as int),
{
    if x > limit as i128 {
        limit as i64
    } else if x < -(limit as i128) {
        -(limit as i64)
    } else {
        x as i64
    }
}

/// The rate of [`rate_over`], as far as any clock is asked to go.
fn rate(ps: u128, ratio: u128, interval: i8) -> (r: u128)
    requires
        ps <= OFFSET_LIMIT,
        1 <= ratio <= 3,
    ensures
        r == if rate_over(ps as nat, ratio as nat, interval as int) <= FREQ_LIMIT {
            rate_over(ps as nat, ratio as nat, interval as int) as int
        } else {
            FREQ_LIMIT as int
        },
{
    let scaled: u128 = ps * 1000;
    proof {
        lemma2_to64();
        lemma2_to64_rest();
        lemma_pow2_adds(64, 27);
    }
    let r: u128 = if interval > 90 {
        proof {
            lemma_pow2_at_most(91, interval as nat);
            let span = pow2(interval as nat);
            let x = scaled as nat;
            assert(x / (ratio as nat * span) == 0) by (nonlinear_arith)
                requires
                    0 <= x < span,
                    1 <= ratio,
            ;
        }
        0
    } else if interval >= 0 {
        let span: u128 = power_of_two(interval as u32);
        proof {
            lemma_pow2_at_most(interval as nat, 91);
            lemma_pow2_at_most(0, interval as nat);
            assert(0 < ratio * span <= 3 * pow2(91)) by (nonlinear_arith)
                requires
                    1 <= ratio <= 3,
                    1 <= span <= pow2(91),
            ;
        }
        scaled / (ratio * span)
    } else if scaled == 0 {
        proof {
            let span = pow2((-interval) as nat);
            assert(0 * span == 0) by (nonlinear_arith);
            assert(0int / ratio as int == 0) by (nonlinear_arith)
                requires
                    ratio >= 1,
            ;
        }
        0
    } else if interval <= -64 || scaled > 3 * FREQ_LIMIT as u128 {
        proof {
            let span = pow2((-interval) as nat);
            let product = scaled as nat * span;
            lemma_pow2_at_most(0, (-interval) as nat);
            if interval <= -64 {
                lemma_pow2_at_most(64, (-interval) as nat);
                assert(product >= 1000 * 0x1_0000_0000_0000_0000) by (nonlinear_arith)
                    requires
                        product == scaled as nat * span,
                        scaled >= 1000,
                        span >= 0x1_0000_0000_0000_0000,
                ;
            } else {
                assert(product >= scaled) by (nonlinear_arith)
                    requires
                        product == scaled as nat * span,
                        span >= 1,
                ;
            }
            assert(product / (ratio as nat) >= FREQ_LIMIT) by (nonlinear_arith)
                requires
                    product >= 3 * FREQ_LIMIT,
                    1 <= ratio <= 3,
            ;
        }
        return FREQ_LIMIT as u128;
    } else {
        let span: u128 = power_of_two((-(interval as i32)) as u32);
        proof {
            lemma_pow2_at_most((-interval) as nat, 63);
            assert(scaled * span <= 3 * FREQ_LIMIT * 0x8000_0000_0000_0000) by (nonlinear_arith)
                requires
                    0 <= scaled <= 3 * FREQ_LIMIT,
                    0 <= span <= 0x8000_0000_0000_0000,
            ;
        }
        scaled * span / ratio
    };
    if r > FREQ_LIMIT as u128 {
        FREQ_LIMIT as u128
    } else {
        r
    }
}

/// A loop that has not heard anything yet.
pub open spec fn fresh(cfg: DisciplineConfig) -> Discipline {
    Discipline {
        cfg,
        freq_ppq: 0,
        updates: 0,
        poll: cfg.min_poll,
        stable_streak: 0,
        iburst_left: if cfg.iburst {
            IBURST_COUNT
        } else {
            0
        },
        last_drain_ppq: 0,
        burst_used: 0,
        offset_ewma: 0,
        ewma_seeded: false,
    }
}

impl Discipline {
    pub fn new(cfg: DisciplineConfig) -> (d: Self)
        requires
            cfg.fits(),
        ensures
            d.wf(),
            d == fresh(cfg),
    {
        Discipline {
            cfg,
            freq_ppq: 0,
            updates: 0,
            poll: cfg.min_poll,
            stable_streak: 0,
            iburst_left: if cfg.iburst { IBURST_COUNT } else { 0 },
            last_drain_ppq: 0,
            burst_used: 0,
            offset_ewma: 0,
            ewma_seeded: false,
        }
    }

    /// Current commanded frequency correction.
    pub fn freq_ppq(&self) -> (freq: i64)
        ensures
            freq == self.freq_ppq,
    {
        self.freq_ppq
    }

    pub fn poll_log2(&self) -> (poll: i8)
        ensures
            poll == self.poll,
    {
        self.poll
    }

    /// log2 of how long to wait before trying again when an exchange yields
    /// nothing. This is the burst spacing while the burst budget lasts, *not*
    /// the poll interval, and nothing is consumed: a failed exchange must not
    /// spend burst budget.
    pub fn retry_interval_log2(&self) -> (interval: i8)
        ensures
            interval == self.interval(),
    {
        self.peek_poll_interval()
    }

    fn peek_poll_interval(&self) -> (interval: i8)
        ensures
            interval == self.interval(),
    {
        if self.iburst_left > 0 {
            IBURST_SPACING_LOG2
        } else {
            self.poll
        }
    }

    /// Consume one poll slot: called exactly once per emitted plan.
    fn take_poll_interval(&mut self) -> (interval: i8)
        requires
            old(self).wf(),
        ensures
            final(self).wf(),
            interval == old(self).interval(),
            *final(self) == old(self).slot_taken(),
    {
        if self.iburst_left > 0 {
            self.iburst_left = self.iburst_left - 1;
            self.burst_used = self.burst_used + 1;
            IBURST_SPACING_LOG2
        } else {
            self.poll
        }
    }

    fn average_in(&mut self, offset: i128)
        requires
            old(self).wf(),
            -OFFSET_LIMIT <= offset <= OFFSET_LIMIT,
        ensures
            final(self).wf(),
            *final(self) == old(self).averaged(offset as int),
    {
        if self.ewma_seeded {
            self.offset_ewma = quotient(3 * self.offset_ewma + offset, 4);
        } else {
            self.offset_ewma = offset;
            self.ewma_seeded = true;
        }
    }

    fn trim(&mut self, noise: u64)
        requires
            old(self).wf(),
        ensures
            final(self).wf(),
            *final(self) == old(self).trimmed(noise as nat),
    {
        let standing: u128 = size_of_offset(self.offset_ewma);
        if self.cfg.freq_integral_gain_micro != 0 && self.updates > ACQUIRE_UPDATES && standing
            > noise as u128 {
            let interval: i8 = self.peek_poll_interval();
            let rate: u128 = rate(standing, CORR_TIME_RATIO, interval);
            let implied: i64 = if rate > FREQ_LIMIT as u128 { FREQ_LIMIT } else { rate as i64 };
            let signed: i64 = if self.offset_ewma < 0 { -implied } else { implied };
            let gain: i64 = self.cfg.freq_integral_gain_micro;
            proof {
                assert(-(0x8000_0000_0000_0000 * 0x3FFF_FFFF_FFFF_FFFF) <= gain * signed
                    <= 0x8000_0000_0000_0000 * 0x3FFF_FFFF_FFFF_FFFF) by (nonlinear_arith)
                    requires
                        -0x8000_0000_0000_0000 <= gain <= 0x8000_0000_0000_0000,
                        -0x3FFF_FFFF_FFFF_FFFF <= signed <= 0x3FFF_FFFF_FFFF_FFFF,
                ;
            }
            let absorbed: i128 = quotient(gain as i128 * signed as i128, 1_000_000);
            self.freq_ppq = hold(self.freq_ppq as i128 + absorbed, self.cfg.max_freq_ppq);
        }
    }

    fn pace(&mut self, offset: u128, noise: u64, Ghost(signed): Ghost<int>)
        requires
            old(self).wf(),
            offset == size(signed),
            offset <= OFFSET_LIMIT,
        ensures
            final(self).wf(),
            *final(self) == old(self).paced(signed, noise as nat),
    {
        if offset < 2 * (noise as u128) {
            let streak: u32 = self.stable_streak.saturating_add(1);
            if streak >= self.cfg.poll_up_streak && self.poll < self.cfg.max_poll {
                self.poll = self.poll + 1;
                self.stable_streak = 0;
            } else {
                self.stable_streak = streak;
            }
        } else {
            let ratio: u64 = self.cfg.poll_down_noise_ratio_milli;
            proof {
                assert(ratio * noise <= 0xFFFF_FFFF_FFFF_FFFF * 0xFFFF_FFFF_FFFF_FFFF)
                    by (nonlinear_arith)
                    requires
                        0 <= ratio <= 0xFFFF_FFFF_FFFF_FFFF,
                        0 <= noise <= 0xFFFF_FFFF_FFFF_FFFF,
                ;
            }
            if offset * 1000 > ratio as u128 * noise as u128 && self.poll > self.cfg.min_poll {
                self.poll = self.poll - 1;
            }
            self.stable_streak = 0;
        }
    }

    fn drain(&self, offset: u128, noise: u64, Ghost(signed): Ghost<int>) -> (rate_ppq: u64)
        requires
            self.wf(),
            offset == size(signed),
            offset <= OFFSET_LIMIT,
        ensures
            rate_ppq == self.drain_rate(signed, noise as nat),
            rate_ppq <= self.cfg.max_slew_ppq,
    {
        let ceiling: u128 = self.cfg.max_slew_ppq as u128;
        let interval: i8 = self.peek_poll_interval();
        let wanted: u128 = if self.updates <= ACQUIRE_UPDATES && offset > ACQUIRE_NOISE_MULTIPLE
            * noise as u128 {
            let share: u128 = if offset >= ACQUIRE_FULL_SPEED_CONFIDENCE * noise as u128 {
                ceiling
            } else {
                ceiling / ACQUIRE_SLEW_PARTS
            };
            let fast: u128 = rate(offset, 1, interval);
            if fast < share {
                fast
            } else {
                share
            }
        } else if self.cfg.corr_time_ns > 0 {
            offset * 1_000_000_000_000 / self.cfg.corr_time_ns as u128
        } else {
            rate(offset, CORR_TIME_RATIO, interval)
        };
        if wanted < ceiling {
            wanted as u64
        } else {
            self.cfg.max_slew_ppq
        }
    }

    /// Feed the latest combined estimate.
    ///
    /// * `offset`: what to add to the local clock, now.
    /// * `measured`: residual frequency error from the regression (positive =
    ///   local slow), if trusted.
    /// * `sd`: residual noise of the estimate.
    pub fn on_estimate(&mut self, offset: i128, measured: Option<i64>, sd: u64) -> (plan: Plan)
        requires
            old(self).wf(),
            -OFFSET_LIMIT <= offset <= OFFSET_LIMIT,
        ensures
            final(self).wf(),
            final(self).cfg == old(self).cfg,
            plan == old(self).plan(offset as int, measured, sd),
            *final(self) == old(self).after(offset as int, measured, sd),
    {
        let ghost before = *self;
        let far: u128 = size_of_offset(offset);
        self.updates = self.updates.saturating_add(1);
        if let Some(threshold) = self.cfg.makestep_threshold {
            if far > threshold && self.updates <= self.cfg.makestep_limit {
                self.stable_streak = 0;
                let next_poll_log2: i8 = self.take_poll_interval();
                return Plan {
                    command: ClockCommand::Step { add_ps: offset },
                    next_poll_log2,
                    reset_register: true,
                };
            }
        }
        if let Some(residual) = measured {
            if self.last_drain_ppq as u128 * FREQ_TRUST_SLEW_PARTS <= self.cfg.max_slew_ppq
                as u128 {
                self.freq_ppq = hold(
                    self.freq_ppq as i128 + residual as i128,
                    self.cfg.max_freq_ppq,
                );
            }
        }
        let noise: u64 = if sd < NOISE_FLOOR_PS { NOISE_FLOOR_PS } else { sd };
        self.average_in(offset);
        self.trim(noise);
        self.pace(far, noise, Ghost(offset as int));
        // Keep the acquisition burst going while a correction is outstanding.
        if self.iburst_left == 0 && self.cfg.iburst && self.burst_used < MAX_ACQUIRE_BURST && far
            > ACQUIRE_DONE_PS && far > 2 * (noise as u128) {
            self.iburst_left = 1;
        }
        assert(*self == before.ready(offset as int, measured, noise as nat));
        let drain_rate_ppq: u64 = self.drain(far, noise, Ghost(offset as int));
        self.last_drain_ppq = drain_rate_ppq;
        let freq_ppq: i64 = self.freq_ppq;
        let next_poll_log2: i8 = self.take_poll_interval();
        Plan {
            command: ClockCommand::Slew { freq_ppq, drain_offset_ps: offset, drain_rate_ppq },
            next_poll_log2,
            reset_register: false,
        }
    }
}

/// Feed a run of estimates to the loop.
pub open spec fn loop_after(start: Discipline, estimates: Seq<(int, Option<i64>, u64)>) -> Discipline
    decreases estimates.len(),
{
    if estimates.len() == 0 {
        start
    } else {
        let e = estimates.last();
        loop_after(start, estimates.drop_last()).after(e.0, e.1, e.2)
    }
}

/// The loop keeps its bounds whatever it is fed: the frequency within its cap,
/// the poll interval between its ends, the burst within its budget.
pub proof fn the_loop_stays_within_bounds(d: Discipline, offset: i128, measured: Option<i64>, sd: u64)
    requires
        d.wf(),
        -OFFSET_LIMIT <= offset <= OFFSET_LIMIT,
    ensures
        d.after(offset as int, measured, sd).wf(),
        d.after(offset as int, measured, sd).cfg == d.cfg,
        d.updates < u32::MAX ==> d.after(offset as int, measured, sd).updates == d.updates + 1,
{
    let noise = noise_of(sd);
    let ready = d.ready(offset as int, measured, noise);
    let avg = 3 * d.offset_ewma + offset;
    assert(-OFFSET_LIMIT <= toward_zero(avg, 4) <= OFFSET_LIMIT);
    assert(ready.drain_rate(offset as int, noise) <= d.cfg.max_slew_ppq);
}

/// No clock is ever slewed faster than its ceiling.
pub proof fn slews_respect_the_ceiling(d: Discipline, offset: int, measured: Option<i64>, sd: u64)
    requires
        d.wf(),
    ensures
        match d.plan(offset, measured, sd).command {
            ClockCommand::Slew { freq_ppq, drain_rate_ppq, .. } => drain_rate_ppq
                <= d.cfg.max_slew_ppq && -d.cfg.max_freq_ppq <= freq_ppq <= d.cfg.max_freq_ppq,
            ClockCommand::Step { .. } => true,
        },
{
}

/// The step window closes: past its limit no offset is stepped, however large.
pub proof fn the_step_window_closes(d: Discipline, offset: int, measured: Option<i64>, sd: u64)
    requires
        d.updates >= d.cfg.makestep_limit,
        d.updates < u32::MAX,
    ensures
        d.plan(offset, measured, sd).command is Slew,
        !d.plan(offset, measured, sd).reset_register,
{
}

/// The acquisition burst is bounded: over any run of estimates at most the
/// burst's budget of quick polls is spent, whatever the estimates were.
pub proof fn the_burst_is_bounded(start: Discipline, estimates: Seq<(int, Option<i64>, u64)>)
    requires
        start.wf(),
        forall|i: int|
            0 <= i < estimates.len() ==> -OFFSET_LIMIT <= (#[trigger] estimates[i]).0
                <= OFFSET_LIMIT,
    ensures
        loop_after(start, estimates).wf(),
        start.burst_used <= loop_after(start, estimates).burst_used <= MAX_ACQUIRE_BURST,
    decreases estimates.len(),
{
    if estimates.len() > 0 {
        let shorter = estimates.drop_last();
        let e = estimates.last();
        assert(e == estimates[estimates.len() - 1]);
        assert forall|i: int| 0 <= i < shorter.len() implies -OFFSET_LIMIT <= (
        #[trigger] shorter[i]).0 <= OFFSET_LIMIT by {
            assert(shorter[i] == estimates[i]);
        }
        the_burst_is_bounded(start, shorter);
        the_loop_stays_within_bounds(loop_after(start, shorter), e.0 as i128, e.1, e.2);
    }
}

/// A frequency measured while the clock was being hauled is not believed.
pub proof fn a_haul_teaches_no_frequency(d: Discipline, offset: int, measured: i64, sd: u64)
    requires
        d.wf(),
        d.hauling(),
    ensures
        d.after(offset, Some(measured), sd) == d.after(offset, None, sd),
{
}

} // verus!
