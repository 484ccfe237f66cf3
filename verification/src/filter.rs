//! The sample register: one source's measurement history.
//!
//! Monotonic times are nanoseconds; offsets, delays and dispersions are
//! picoseconds; frequencies are parts per quadrillion (10^-15).

use vstd::prelude::*;

use crate::arith::{quotient, toward_zero};

verus! {

/// The largest shift of a register's offsets in one go, 2^100 ps.
pub const SHIFT_LIMIT: i128 = 0x10_0000_0000_0000_0000_0000_0000;

/// One completed exchange.
#[derive(Clone, Copy, Debug, PartialEq, Eq, Structural)]
pub struct Sample {
    /// Local monotonic time of the exchange's midpoint.
    pub t: u64,
    /// What to ADD to the local clock.
    pub offset: i128,
    /// Round-trip delay.
    pub delay: i64,
    pub dispersion: u64,
}

/// What a clock running `ppq` parts per quadrillion fast gains in `dt`
/// nanoseconds, in picoseconds, rounded towards zero.
pub open spec fn drift_ps(ppq: int, dt: int) -> int {
    toward_zero(ppq * dt, 1_000_000_000_000)
}

/// What `drift_ps` says, computed.
pub(crate) fn drift(ppq: i64, dt: i128) -> (ps: i128)
    requires
        -0xFFFF_FFFF_FFFF_FFFF <= dt <= 0xFFFF_FFFF_FFFF_FFFF,
    ensures
        ps == drift_ps(ppq as int, dt as int),
        -SHIFT_LIMIT <= ps <= SHIFT_LIMIT,
{
    proof {
        assert(-(0x8000_0000_0000_0000 * 0xFFFF_FFFF_FFFF_FFFF) <= ppq * dt
            <= 0x8000_0000_0000_0000 * 0xFFFF_FFFF_FFFF_FFFF) by (nonlinear_arith)
            requires
                -0x8000_0000_0000_0000 <= ppq <= 0x8000_0000_0000_0000,
                -0xFFFF_FFFF_FFFF_FFFF <= dt <= 0xFFFF_FFFF_FFFF_FFFF,
        ;
    }
    quotient(ppq as i128 * dt, 1_000_000_000_000)
}

/// A number held within what an offset can be.
pub open spec fn clipped(x: int) -> int {
    if x > i128::MAX {
        i128::MAX as int
    } else if x < i128::MIN {
        i128::MIN as int
    } else {
        x
    }
}

/// What a change of the clock at `t_change`, by `doffset` at once and by `dfreq`
/// from then on, takes off a sample's offset.
pub open spec fn shift_of(sample: Sample, t_change: u64, dfreq: int, doffset: int) -> int {
    doffset + drift_ps(dfreq, sample.t - t_change)
}

/// A sample re-expressed for a clock that was changed.
pub open spec fn slewed(sample: Sample, t_change: u64, dfreq: int, doffset: int) -> Sample {
    Sample {
        offset: clipped(sample.offset - shift_of(sample, t_change, dfreq, doffset)) as i128,
        ..sample
    }
}

/// The smallest delay among samples.
pub open spec fn is_min_delay(window: Seq<Sample>, min: Option<i64>) -> bool {
    match min {
        None => window.len() == 0,
        Some(m) => (exists|i: int| 0 <= i < window.len() && (#[trigger] window[i]).delay == m) && (
        forall|i: int| 0 <= i < window.len() ==> m <= (#[trigger] window[i]).delay),
    }
}

/// The last samples of a source, at most as many as the capacity.
///
/// Storage is a vector with a moving head, compacted once the head has come as
/// far as the capacity, so a push is cheap on average.
pub struct SampleRegister {
    samples: Vec<Sample>,
    head: usize,
    capacity: usize,
    min_delay: Option<i64>,
}

impl View for SampleRegister {
    type V = Seq<Sample>;

    closed spec fn view(&self) -> Seq<Sample> {
        self.samples@.skip(self.head as int)
    }
}

impl SampleRegister {
    /// The most samples kept.
    pub closed spec fn limit(&self) -> nat {
        self.capacity as nat
    }

    pub closed spec fn wf(&self) -> bool {
        &&& 3 <= self.capacity
        &&& self.head < self.capacity
        &&& self.head <= self.samples@.len()
        &&& self.samples@.len() - self.head <= self.capacity
        &&& is_min_delay(self@, self.min_delay)
    }

    /// A register for at most `capacity` samples (at least three).
    pub fn new(capacity: usize) -> (register: Self)
        ensures
            register.wf(),
            register@ == Seq::<Sample>::empty(),
            register.limit() == if capacity < 3 {
                3
            } else {
                capacity as nat
            },
    {
        let register = SampleRegister {
            samples: Vec::new(),
            head: 0,
            capacity: if capacity < 3 { 3 } else { capacity },
            min_delay: None,
        };
        assert(register@ =~= Seq::empty());
        register
    }

    /// A register never holds more samples than it was made for.
    pub proof fn is_bounded(&self)
        requires
            self.wf(),
        ensures
            self@.len() <= self.limit(),
    {
    }

    pub fn len(&self) -> (len: usize)
        requires
            self.wf(),
        ensures
            len == self@.len(),
            len <= self.limit(),
    {
        self.samples.len() - self.head
    }

    pub fn is_empty(&self) -> (empty: bool)
        requires
            self.wf(),
        ensures
            empty == (self@.len() == 0),
    {
        self.len() == 0
    }

    /// Sample number `i` of the window, oldest first.
    pub fn get(&self, i: usize) -> (sample: Sample)
        requires
            self.wf(),
            i < self@.len(),
        ensures
            sample == self@[i as int],
    {
        self.samples[self.samples.len() - (self.len() - i)]
    }

    /// The smallest delay in the window.
    pub fn min_delay(&self) -> (min: Option<i64>)
        requires
            self.wf(),
        ensures
            is_min_delay(self@, min),
    {
        self.min_delay
    }

    fn lowest(&self, from: usize) -> (min: Option<i64>)
        requires
            from <= self.samples@.len(),
        ensures
            is_min_delay(self.samples@.skip(from as int), min),
    {
        let mut min: Option<i64> = None;
        let mut i: usize = from;
        let ghost kept = self.samples@.skip(from as int);
        while i < self.samples.len()
            invariant
                from <= i <= self.samples@.len(),
                kept == self.samples@.skip(from as int),
                is_min_delay(kept.take(i - from), min),
            decreases self.samples@.len() - i,
        {
            let delay: i64 = self.samples[i].delay;
            let ghost k = i - from;
            let ghost before = kept.take(k);
            let ghost after = kept.take(k + 1);
            let ghost old_min = min;
            assert(after[k].delay == delay);
            assert forall|j: int| 0 <= j < k implies (#[trigger] after[j]) == before[j] by {}
            min = match min {
                None => Some(delay),
                Some(m) => if delay < m {
                    Some(delay)
                } else {
                    Some(m)
                },
            };
            proof {
                if old_min is Some && delay >= old_min->Some_0 {
                    let w = choose|w: int|
                        0 <= w < before.len() && (#[trigger] before[w]).delay == old_min->Some_0;
                    assert(after[w].delay == old_min->Some_0);
                }
            }
            i = i + 1;
        }
        assert(kept.take(i - from) =~= kept);
        min
    }

    /// Take one more sample; the oldest leaves where the register is full.
    /// Samples come in the order of their times.
    pub fn push(&mut self, s: Sample)
        requires
            old(self).wf(),
            old(self)@.len() > 0 ==> old(self)@.last().t <= s.t,
        ensures
            final(self).wf(),
            final(self).limit() == old(self).limit(),
            final(self)@ == if old(self)@.len() < old(self).limit() {
                old(self)@.push(s)
            } else {
                old(self)@.push(s).drop_first()
            },
    {
        let ghost before = self@;
        self.samples.push(s);
        assert(self@ =~= before.push(s));
        if self.samples.len() - self.head > self.capacity {
            let evicted: Sample = self.samples[self.head];
            self.head = self.head + 1;
            assert(self@ =~= before.push(s).drop_first());
            self.min_delay = match self.min_delay {
                Some(m) => if evicted.delay <= m {
                    self.lowest(self.head)
                } else {
                    proof {
                        let w = choose|w: int|
                            0 <= w < before.len() && (#[trigger] before[w]).delay == m;
                        assert(w > 0);
                        assert(self@[w - 1] == before[w]);
                        lemma_min_with(self@, before, s, m);
                    }
                    if s.delay < m {
                        Some(s.delay)
                    } else {
                        Some(m)
                    }
                },
                None => self.lowest(self.head),
            };
        } else {
            proof {
                if let Some(m) = self.min_delay {
                    let w = choose|w: int|
                        0 <= w < before.len() && (#[trigger] before[w]).delay == m;
                    assert(self@[w] == before[w]);
                }
                assert(self@[self@.len() - 1] == s);
                assert forall|i: int| 0 <= i < before.len() implies (#[trigger] self@[i])
                    == before[i] by {}
            }
            self.min_delay = match self.min_delay {
                Some(m) => if s.delay < m {
                    Some(s.delay)
                } else {
                    Some(m)
                },
                None => Some(s.delay),
            };
        }
        if self.head >= self.capacity {
            let ghost window = self@;
            let tail: Vec<Sample> = self.samples.split_off(self.head);
            self.samples = tail;
            self.head = 0;
            assert(self@ =~= window);
        }
    }

    /// Forget everything.
    pub fn clear(&mut self)
        requires
            old(self).wf(),
        ensures
            final(self).wf(),
            final(self).limit() == old(self).limit(),
            final(self)@ == Seq::<Sample>::empty(),
    {
        self.samples = Vec::new();
        self.head = 0;
        self.min_delay = None;
        assert(self@ =~= Seq::empty());
    }

    /// Re-express the history for a clock that was changed at `t_change`: by
    /// `doffset` at once, and by a frequency of `dfreq` from then on.
    pub fn slew_samples(&mut self, t_change: u64, dfreq: i64, doffset: i128)
        requires
            old(self).wf(),
            -SHIFT_LIMIT <= doffset <= SHIFT_LIMIT,
        ensures
            final(self).wf(),
            final(self).limit() == old(self).limit(),
            final(self)@ == old(self)@.map_values(
                |s: Sample| slewed(s, t_change, dfreq as int, doffset as int),
            ),
    {
        let ghost before = *self;
        let mut i: usize = self.head;
        while i < self.samples.len()
            invariant
                self.head == before.head,
                self.capacity == before.capacity,
                self.min_delay == before.min_delay,
                self.samples@.len() == before.samples@.len(),
                before.head <= i <= self.samples@.len(),
                -SHIFT_LIMIT <= doffset <= SHIFT_LIMIT,
                forall|j: int|
                    before.head <= j < i ==> (#[trigger] self.samples@[j]) == slewed(
                        before.samples@[j],
                        t_change,
                        dfreq as int,
                        doffset as int,
                    ),
                forall|j: int|
                    i <= j < self.samples@.len() ==> (#[trigger] self.samples@[j])
                        == before.samples@[j],
            decreases self.samples@.len() - i,
        {
            let mut s: Sample = self.samples[i];
            let shift: i128 = doffset + drift(dfreq, s.t as i128 - t_change as i128);
            s.offset = match s.offset.checked_sub(shift) {
                Some(o) => o,
                None => if shift < 0 {
                    i128::MAX
                } else {
                    i128::MIN
                },
            };
            self.samples.set(i, s);
            i = i + 1;
        }
        proof {
            let f = |s: Sample| slewed(s, t_change, dfreq as int, doffset as int);
            assert(self@ =~= before@.map_values(f));
            if let Some(m) = before.min_delay {
                let w = choose|w: int| 0 <= w < before@.len() && (#[trigger] before@[w]).delay == m;
                assert(self@[w].delay == m);
                assert forall|j: int| 0 <= j < self@.len() implies m <= (
                #[trigger] self@[j]).delay by {
                    assert(self@[j].delay == before@[j].delay);
                }
            }
        }
    }

    /// The lowest-delay sample among the eight most recent: the least
    /// contaminated single reading. Of equals, the oldest.
    pub fn best(&self) -> (best: Option<Sample>)
        requires
            self.wf(),
        ensures
            match best {
                None => self@.len() == 0,
                Some(b) => exists|k: int| #[trigger] is_best(self@, k) && b == self@[k],
            },
    {
        let n: usize = self.len();
        if n == 0 {
            return None;
        }
        let start: usize = if n > 8 { n - 8 } else { 0 };
        let mut at: usize = start;
        let mut i: usize = start + 1;
        while i < n
            invariant
                self.wf(),
                n == self@.len(),
                start == if n > 8 {
                    n - 8
                } else {
                    0
                },
                start <= at < i <= n,
                forall|j: int| start <= j < i ==> self@[at as int].delay <= (#[trigger] self@[j]).delay,
                forall|j: int| start <= j < at ==> self@[at as int].delay < (#[trigger] self@[j]).delay,
            decreases n - i,
        {
            if self.get(i).delay < self.get(at).delay {
                at = i;
            }
            i = i + 1;
        }
        assert(is_best(self@, at as int));
        Some(self.get(at))
    }
}

proof fn lemma_min_with(window: Seq<Sample>, before: Seq<Sample>, s: Sample, m: i64)
    requires
        before.len() > 0,
        window == before.push(s).drop_first(),
        is_min_delay(before, Some(m)),
        exists|i: int| 0 <= i < window.len() - 1 && (#[trigger] window[i]).delay == m,
    ensures
        is_min_delay(window, Some(if s.delay < m { s.delay } else { m })),
{
    assert forall|i: int| 0 <= i < window.len() - 1 implies m <= (#[trigger] window[i]).delay by {
        assert(window[i] == before[i + 1]);
    }
    assert(window[window.len() - 1] == s);
}

/// Whether sample `k` of a window is the best single reading in it.
pub open spec fn is_best(window: Seq<Sample>, k: int) -> bool {
    let start = if window.len() > 8 {
        window.len() - 8
    } else {
        0
    };
    &&& start <= k < window.len()
    &&& forall|j: int| start <= j < window.len() ==> window[k].delay <= (#[trigger] window[j]).delay
    &&& forall|j: int| start <= j < k ==> window[k].delay < (#[trigger] window[j]).delay
}

/// Undoing a change of the clock puts a sample back exactly, as long as its
/// offset never came near what can be held.
pub proof fn slewing_back_restores(sample: Sample, t_change: u64, dfreq: int, doffset: int)
    requires
        i128::MIN <= sample.offset - shift_of(sample, t_change, dfreq, doffset) <= i128::MAX,
    ensures
        slewed(slewed(sample, t_change, dfreq, doffset), t_change, -dfreq, -doffset) == sample,
{
    let dt = sample.t - t_change;
    assert((-dfreq) * dt == -(dfreq * dt)) by (nonlinear_arith);
}

} // verus!
