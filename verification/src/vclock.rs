//! The virtual clock: a disciplined *view* of time for hosts where the OS clock
//! cannot be adjusted, and the holdover model everywhere else.
//!
//! It never steps its output backwards: corrections that would reverse reported
//! time are absorbed by freezing until real time catches up.
//!
//! Times are nanoseconds; frequencies are parts per trillion.

use vstd::prelude::*;

use crate::discipline::ClockCommand;

verus! {

/// How fast the error bound grows with no updates: 15 parts per million, an
/// undisciplined crystal's typical wander budget.
pub const ERROR_GROWTH_PPM: u64 = 15;

/// Parts per trillion.
pub const PPT: i128 = 1_000_000_000_000;

/// What a clock that is off by `ppt` parts per trillion gains in `ns`
/// nanoseconds, rounded towards zero.
pub open spec fn drift_ns(ppt: int, ns: nat) -> int {
    if ppt >= 0 {
        ppt * ns / (PPT as int)
    } else {
        -((-ppt) * ns / (PPT as int))
    }
}

/// Nanoseconds since `then`; none where the clock ran backwards.
pub open spec fn since(then: u64, now: u64) -> nat {
    if now > then {
        (now - then) as nat
    } else {
        0
    }
}

#[derive(Clone, Copy, Debug, PartialEq, Eq, Structural)]
pub struct VirtualClock {
    /// Nanoseconds to add to the raw wall clock.
    pub offset: i64,
    /// Raw clock's frequency error (positive = raw clock runs fast).
    pub skew_ppt: i64,
    /// Monotonic time of the last update.
    pub last_update_mono: Option<u64>,
    /// Error bound at the last update.
    pub err_at_update: u64,
    /// Highest corrected time handed out (monotonicity guard).
    pub high_water: Option<i128>,
}

impl VirtualClock {
    /// What the clock says before the monotonicity guard.
    pub open spec fn corrected(self, mono: u64, raw_wall: i64) -> int {
        match self.last_update_mono {
            Some(t0) => raw_wall + self.offset - drift_ns(self.skew_ppt as int, since(t0, mono)),
            None => raw_wall as int,
        }
    }

    /// What the clock says.
    pub open spec fn reading(self, mono: u64, raw_wall: i64) -> int {
        match self.high_water {
            Some(high) => if self.corrected(mono, raw_wall) < high {
                high as int
            } else {
                self.corrected(mono, raw_wall)
            },
            None => self.corrected(mono, raw_wall),
        }
    }

    /// How far off the clock may be.
    pub open spec fn bound_at(self, mono: u64) -> Option<u128> {
        match self.last_update_mono {
            Some(t0) => Some(
                (self.err_at_update + ERROR_GROWTH_PPM * since(t0, mono) / 1_000_000) as u128,
            ),
            None => None,
        }
    }

    pub fn new() -> (clock: Self)
        ensures
            clock == (VirtualClock {
                offset: 0,
                skew_ppt: 0,
                last_update_mono: None,
                err_at_update: 0,
                high_water: None,
            }),
    {
        VirtualClock {
            offset: 0,
            skew_ppt: 0,
            last_update_mono: None,
            err_at_update: 0,
            high_water: None,
        }
    }

    /// Feed a fresh measurement.
    ///
    /// * `mono`: monotonic time now.
    /// * `offset`: nanoseconds to ADD to the raw wall clock, measured now.
    /// * `skew_ppt`: raw clock frequency error if known.
    /// * `error_bound`: measurement error; a negative one counts as none.
    pub fn update(&mut self, mono: u64, offset: i64, skew_ppt: Option<i64>, error_bound: i64)
        ensures
            *final(self) == clock_step(
                *old(self),
                ClockEvent::Update { mono, offset, skew_ppt, error_bound },
            ),
            *final(self) == (VirtualClock {
                offset,
                skew_ppt: match skew_ppt {
                    Some(s) => s,
                    None => old(self).skew_ppt,
                },
                last_update_mono: Some(mono),
                err_at_update: if error_bound < 0 {
                    0
                } else {
                    error_bound as u64
                },
                high_water: old(self).high_water,
            }),
    {
        self.offset = offset;
        if let Some(s) = skew_ppt {
            self.skew_ppt = s;
        }
        self.last_update_mono = Some(mono);
        self.err_at_update = if error_bound < 0 { 0 } else { error_bound as u64 };
    }

    /// Corrected wall time. `raw_wall` is the platform clock reading at the same
    /// instant `mono` was read. Never earlier than a time handed out before.
    pub fn now(&mut self, mono: u64, raw_wall: i64) -> (time: i128)
        ensures
            time == old(self).reading(mono, raw_wall),
            old(self).high_water is Some ==> time >= old(self).high_water->Some_0,
            *final(self) == clock_step(*old(self), ClockEvent::Now { mono, raw_wall }),
            *final(self) == (VirtualClock { high_water: Some(time), ..*old(self) }),
    {
        let corrected: i128 = match self.last_update_mono {
            Some(t0) => {
                let dt: u64 = if mono > t0 { mono - t0 } else { 0 };
                let drift: i128 = drift(self.skew_ppt, dt);
                raw_wall as i128 + self.offset as i128 - drift
            },
            None => raw_wall as i128,
        };
        let time: i128 = match self.high_water {
            Some(high) => if corrected < high {
                high
            } else {
                corrected
            },
            None => corrected,
        };
        self.high_water = Some(time);
        time
    }

    /// Current error bound; it grows while no updates arrive. `None` until the
    /// first update: callers gate decisions on this, so it must not pretend
    /// precision it does not have.
    pub fn confidence(&self, mono: u64) -> (bound: Option<u128>)
        ensures
            bound == self.bound_at(mono),
            bound is Some ==> bound->Some_0 >= self.err_at_update,
    {
        match self.last_update_mono {
            Some(t0) => {
                let dt: u64 = if mono > t0 { mono - t0 } else { 0 };
                Some(self.err_at_update as u128 + ERROR_GROWTH_PPM as u128 * dt as u128 / 1_000_000)
            },
            None => None,
        }
    }

    pub fn is_synchronized(&self) -> (synchronized: bool)
        ensures
            synchronized == self.last_update_mono is Some,
    {
        self.last_update_mono.is_some()
    }
}

impl Default for VirtualClock {
    fn default() -> (clock: Self)
        ensures
            clock == (VirtualClock {
                offset: 0,
                skew_ppt: 0,
                last_update_mono: None,
                err_at_update: 0,
                high_water: None,
            }),
    {
        Self::new()
    }
}

fn drift(ppt: i64, ns: u64) -> (gain: i128)
    ensures
        gain == drift_ns(ppt as int, ns as nat),
        -0x7FFF_FFFF_FFFF_FFFF_FFFF_FFFF_FFFF <= gain <= 0x7FFF_FFFF_FFFF_FFFF_FFFF_FFFF_FFFF,
{
    let size: u128 = if ppt < 0 { (-(ppt as i128)) as u128 } else { ppt as u128 };
    proof {
        assert(size * ns <= 0x8000_0000_0000_0000 * 0xFFFF_FFFF_FFFF_FFFF) by (nonlinear_arith)
            requires
                0 <= size <= 0x8000_0000_0000_0000,
                0 <= ns <= 0xFFFF_FFFF_FFFF_FFFF,
        ;
    }
    let gained: u128 = size * ns as u128 / 1_000_000_000_000;
    if ppt < 0 {
        -(gained as i128)
    } else {
        gained as i128
    }
}

/// What happens to a virtual clock.
pub ghost enum ClockEvent {
    Update { mono: u64, offset: i64, skew_ppt: Option<i64>, error_bound: i64 },
    Now { mono: u64, raw_wall: i64 },
}

/// A virtual clock after one event.
pub open spec fn clock_step(clock: VirtualClock, event: ClockEvent) -> VirtualClock {
    match event {
        ClockEvent::Update { mono, offset, skew_ppt, error_bound } => VirtualClock {
            offset,
            skew_ppt: match skew_ppt {
                Some(s) => s,
                None => clock.skew_ppt,
            },
            last_update_mono: Some(mono),
            err_at_update: if error_bound < 0 {
                0
            } else {
                error_bound as u64
            },
            high_water: clock.high_water,
        },
        ClockEvent::Now { mono, raw_wall } => VirtualClock {
            high_water: Some(clock.reading(mono, raw_wall) as i128),
            ..clock
        },
    }
}

/// A virtual clock after a run of events.
pub open spec fn clock_after(clock: VirtualClock, events: Seq<ClockEvent>) -> VirtualClock
    decreases events.len(),
{
    if events.len() == 0 {
        clock
    } else {
        clock_step(clock_after(clock, events.drop_last()), events.last())
    }
}

proof fn lemma_reading_fits(clock: VirtualClock, mono: u64, raw_wall: i64)
    ensures
        i128::MIN <= clock.reading(mono, raw_wall) <= i128::MAX,
{
    if let Some(t0) = clock.last_update_mono {
        let ns = since(t0, mono);
        let size: int = if clock.skew_ppt < 0 { -clock.skew_ppt } else { clock.skew_ppt as int };
        assert(size * ns <= 0x8000_0000_0000_0000 * 0xFFFF_FFFF_FFFF_FFFF) by (nonlinear_arith)
            requires
                0 <= size <= 0x8000_0000_0000_0000,
                0 <= ns <= 0xFFFF_FFFF_FFFF_FFFF,
        ;
        assert(size * ns >= 0) by (nonlinear_arith)
            requires
                size >= 0,
                ns >= 0,
        ;
        assert(0 <= size * ns / (PPT as int) <= size * ns);
    }
}

/// Reported time never goes back: whatever measurements arrive between two
/// readings, the later reading is not earlier than the first.
pub proof fn output_never_goes_back(
    clock: VirtualClock,
    mono: u64,
    raw_wall: i64,
    between: Seq<ClockEvent>,
    later_mono: u64,
    later_wall: i64,
)
    ensures
        ({
            let first = clock.reading(mono, raw_wall);
            let read = clock_step(clock, ClockEvent::Now { mono, raw_wall });
            clock_after(read, between).reading(later_mono, later_wall) >= first
        }),
{
    lemma_reading_fits(clock, mono, raw_wall);
    let read = clock_step(clock, ClockEvent::Now { mono, raw_wall });
    lemma_water_rises(read, between);
}

proof fn lemma_water_rises(clock: VirtualClock, events: Seq<ClockEvent>)
    requires
        clock.high_water is Some,
    ensures
        clock_after(clock, events).high_water is Some,
        clock_after(clock, events).high_water->Some_0 >= clock.high_water->Some_0,
    decreases events.len(),
{
    if events.len() > 0 {
        lemma_water_rises(clock, events.drop_last());
        if let ClockEvent::Now { mono, raw_wall } = events.last() {
            lemma_reading_fits(clock_after(clock, events.drop_last()), mono, raw_wall);
        }
    }
}

/// The no-privilege driver: commands adjust a [`VirtualClock`] view, never the
/// OS clock.
#[derive(Clone, Copy, Debug, PartialEq, Eq, Structural)]
pub struct VirtualDriver {
    pub vclock: VirtualClock,
    /// Accumulated step corrections commanded so far, picoseconds.
    pub stepped: i128,
    /// Last commanded frequency, parts per quadrillion.
    pub freq_ppq: i64,
}

/// A driver after a command.
pub open spec fn driven(driver: VirtualDriver, cmd: ClockCommand) -> VirtualDriver {
    match cmd {
        ClockCommand::Step { add_ps } => VirtualDriver {
            stepped: if driver.stepped + add_ps > i128::MAX {
                i128::MAX
            } else if driver.stepped + add_ps < i128::MIN {
                i128::MIN
            } else {
                (driver.stepped + add_ps) as i128
            },
            ..driver
        },
        ClockCommand::Slew { freq_ppq, .. } => VirtualDriver { freq_ppq, ..driver },
    }
}

impl VirtualDriver {
    pub fn new() -> (driver: Self)
        ensures
            driver.vclock == (VirtualClock {
                offset: 0,
                skew_ppt: 0,
                last_update_mono: None,
                err_at_update: 0,
                high_water: None,
            }),
            driver.stepped == 0,
            driver.freq_ppq == 0,
    {
        VirtualDriver { vclock: VirtualClock::new(), stepped: 0, freq_ppq: 0 }
    }

    pub fn freq_ppq(&self) -> (freq: i64)
        ensures
            freq == self.freq_ppq,
    {
        self.freq_ppq
    }

    pub fn stepped_total(&self) -> (total: i128)
        ensures
            total == self.stepped,
    {
        self.stepped
    }

    /// Feed the latest measurement straight through to the virtual clock.
    pub fn update_measurement(
        &mut self,
        mono: u64,
        offset: i64,
        skew_ppt: Option<i64>,
        error_bound: i64,
    )
        ensures
            *final(self) == (VirtualDriver {
                vclock: clock_step(
                    old(self).vclock,
                    ClockEvent::Update { mono, offset, skew_ppt, error_bound },
                ),
                ..*old(self)
            }),
    {
        self.vclock.update(mono, offset, skew_ppt, error_bound);
    }

    /// Take a command. A slew changes the frequency only: the virtual clock
    /// absorbs offset corrections through its measurements.
    pub fn apply(&mut self, cmd: &ClockCommand)
        ensures
            *final(self) == driven(*old(self), *cmd),
    {
        match *cmd {
            ClockCommand::Step { add_ps } => {
                self.stepped = match self.stepped.checked_add(add_ps) {
                    Some(total) => total,
                    None => if add_ps > 0 {
                        i128::MAX
                    } else {
                        i128::MIN
                    },
                };
            },
            ClockCommand::Slew { freq_ppq, .. } => {
                self.freq_ppq = freq_ppq;
            },
        }
    }
}

} // verus!
