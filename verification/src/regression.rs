//! Weighted linear regression of offset against time over one source's samples.
//! The slope is a direct frequency measurement; the line, extrapolated, is the
//! current offset.
//!
//! Monotonic times are nanoseconds; offsets and delays are picoseconds;
//! frequencies are parts per quadrillion.

use vstd::prelude::*;

use crate::arith::{lemma_mean_within, size, toward_zero, within};
use crate::discipline::{FREQ_LIMIT, OFFSET_LIMIT};
use crate::fading::{each_half_life_halves, faded, fading, lemma_half_to_bounds, STEPS, STEP_BITS};
use crate::filter::{drift, drift_ps, is_min_delay, Sample, SampleRegister};
use crate::ranking::{median, middle};
use crate::wide::{full_range, is_root, quotient_up_to, root_of_quotient, Wide};

verus! {

/// The most samples that a regression takes: the sums of their weighted squares,
/// times their number, fill the 256 bits that hold them.
pub const MAX_ROWS: usize = 0xF_FFFF;

/// The weight of a sample that queued least, 2^40.
pub const FULL_WEIGHT: u64 = 0x100_0000_0000;

/// The least weight, a millionth of the full one.
pub const LEAST_WEIGHT: u64 = 1_099_511;

/// The narrowest floor under an excess delay: one nanosecond.
pub const LEAST_FLOOR_PS: i64 = 1000;

/// How samples are weighted.
#[derive(Clone, Copy, Debug, PartialEq, Eq, Structural)]
pub struct RegressConfig {
    /// Width of the floor under the excess delay, in millionths of the smallest
    /// delay: wide, because a slope wants a long baseline.
    pub floor_ppm: u32,
    /// The same for the offset alone: narrow, because where the clock is, is
    /// best told by the few samples that queued least.
    pub offset_floor_ppm: u32,
    /// If not zero, the offset's floor is this many thousandths of the median
    /// excess delay instead.
    pub dispersion_k_milli: u32,
    /// If not zero, a sample's weight in the offset halves with each of these
    /// spans of age, in nanoseconds.
    pub halflife: u64,
    /// Whether a sample counts in the slope for the time it stands for, rather
    /// than for its existence: a burst is then no anchor at one end of the line.
    pub density: bool,
}

impl Default for RegressConfig {
    fn default() -> (config: Self)
        ensures
            config == default_weighting(),
    {
        RegressConfig {
            floor_ppm: 125_000,
            offset_floor_ppm: 31_250,
            dispersion_k_milli: 0,
            halflife: 0,
            density: false,
        }
    }
}

/// The weighting to start with.
pub open spec fn default_weighting() -> RegressConfig {
    RegressConfig {
        floor_ppm: 125_000,
        offset_floor_ppm: 31_250,
        dispersion_k_milli: 0,
        halflife: 0,
        density: false,
    }
}

/// The narrowest floor that can be asked for, in millionths.
pub const LEAST_RATIO_PPM: u32 = 100;

/// The floor that is set where `ratio_ppm` is asked for.
pub open spec fn ratio_set(ratio_ppm: u32) -> u32 {
    if ratio_ppm < LEAST_RATIO_PPM {
        LEAST_RATIO_PPM
    } else {
        ratio_ppm
    }
}

impl RegressConfig {
    /// Set the width of the floor under the excess delay.
    pub fn set_weight_floor_ratio(&mut self, ratio_ppm: u32)
        ensures
            *final(self) == (RegressConfig {
                floor_ppm: if ratio_ppm < LEAST_RATIO_PPM {
                    LEAST_RATIO_PPM
                } else {
                    ratio_ppm
                },
                ..*old(self)
            }),
            final(self).floor_ppm == ratio_set(ratio_ppm),
    {
        self.floor_ppm = if ratio_ppm < LEAST_RATIO_PPM { LEAST_RATIO_PPM } else { ratio_ppm };
    }

    /// Set the width of the floor for the offset alone.
    pub fn set_offset_weight_floor_ratio(&mut self, ratio_ppm: u32)
        ensures
            *final(self) == (RegressConfig {
                offset_floor_ppm: if ratio_ppm < LEAST_RATIO_PPM {
                    LEAST_RATIO_PPM
                } else {
                    ratio_ppm
                },
                ..*old(self)
            }),
            final(self).offset_floor_ppm == ratio_set(ratio_ppm),
    {
        self.offset_floor_ppm =
        if ratio_ppm < LEAST_RATIO_PPM {
            LEAST_RATIO_PPM
        } else {
            ratio_ppm
        };
    }

    /// Weight each sample in the slope by the time it stands for, or not.
    pub fn set_slope_density_weighting(&mut self, on: bool)
        ensures
            *final(self) == (RegressConfig { density: on, ..*old(self) }),
    {
        self.density = on;
    }

    /// Take the offset's floor from the path's measured dispersion; zero for not.
    pub fn set_offset_weight_dispersion_k(&mut self, k_milli: u32)
        ensures
            *final(self) == (RegressConfig { dispersion_k_milli: k_milli, ..*old(self) }),
    {
        self.dispersion_k_milli = k_milli;
    }

    /// Let a sample's weight in the offset halve with each `ns` of its age; zero
    /// for never.
    pub fn set_offset_age_halflife(&mut self, ns: u64)
        ensures
            *final(self) == (RegressConfig { halflife: ns, ..*old(self) }),
    {
        self.halflife = ns;
    }
}

/// One sample as the regression wants it.
#[derive(Clone, Copy, Debug, PartialEq, Eq, Structural)]
pub struct Row {
    pub t: u64,
    pub offset: i128,
    pub delay: i64,
    pub w: u128,
}

/// A fitted line.
#[derive(Clone, Copy, Debug, PartialEq, Eq, Structural)]
pub struct Fit {
    /// Time origin: the weighted mean of the times.
    pub t0: u64,
    /// Offset at the origin.
    pub a: i128,
    /// Slope.
    pub b: i64,
}

/// What a regression came to.
#[derive(Clone, Copy, Debug, PartialEq, Eq, Structural)]
pub struct RegressEstimate {
    /// Offset extrapolated to the query time.
    pub offset: i128,
    /// Residual frequency error of the local clock against the source; `None`
    /// until enough well-spread samples exist to trust the slope.
    pub freq_ppq: Option<i64>,
    /// Standard deviation of the residuals.
    pub offset_sd: u64,
    /// Samples that survived the trimming.
    pub n_used: usize,
    /// Time covered by them.
    pub span: u64,
}

/// A sum over rows.
pub open spec fn sum_of(rows: Seq<Row>, f: spec_fn(Row) -> int) -> int
    decreases rows.len(),
{
    if rows.len() == 0 {
        0
    } else {
        sum_of(rows.drop_last(), f) + f(rows.last())
    }
}

/// The floor under the excess delay: a fraction of the smallest delay.
pub open spec fn weight_floor(min_delay: int, ratio_ppm: int) -> int {
    let floor = min_delay * ratio_ppm / 1_000_000;
    if min_delay > 0 && floor > LEAST_FLOOR_PS {
        floor
    } else {
        LEAST_FLOOR_PS as int
    }
}

/// The weight of a delay: the inverse square of its excess over the smallest,
/// which is inverse-variance weighting where queueing makes the error.
pub open spec fn weight_of(delay: int, min_delay: int, floor: int) -> int {
    let excess = if delay > min_delay {
        delay - min_delay + floor
    } else {
        floor
    };
    let w = floor * floor * FULL_WEIGHT / (excess * excess);
    if w > LEAST_WEIGHT {
        w
    } else {
        LEAST_WEIGHT as int
    }
}

/// The time that a sample stands for, doubled: from halfway to the one before it
/// until halfway to the one after it.
pub open spec fn stands_for(window: Seq<Sample>, i: int) -> int {
    let from = if i > 0 {
        window[i - 1].t
    } else {
        window[i].t
    };
    let to = if i + 1 < window.len() {
        window[i + 1].t
    } else {
        window[i].t
    };
    if to > from {
        to - from
    } else {
        0
    }
}

/// The times that the first `n` samples stand for, together.
pub open spec fn time_sum(window: Seq<Sample>, n: nat) -> int
    decreases n,
{
    if n == 0 {
        0
    } else {
        time_sum(window, (n - 1) as nat) + stands_for(window, n - 1)
    }
}

/// A weight in proportion to the time that a sample stands for: as it was for a
/// sample that stands for the mean time, and nothing for one that stands for none.
/// Where all are at one time, it stays as it was.
pub open spec fn by_density(weight: int, own: int, sum: int, n: int) -> int {
    if sum <= 0 {
        weight
    } else {
        weight * own * n / sum
    }
}

/// A sample's row.
pub open spec fn row_of(window: Seq<Sample>, i: int, min_delay: int, config: RegressConfig) -> Row {
    let w = weight_of(
        window[i].delay as int,
        min_delay,
        weight_floor(min_delay, config.floor_ppm as int),
    );
    Row {
        t: window[i].t,
        offset: within(window[i].offset as int, OFFSET_LIMIT as int) as i128,
        delay: window[i].delay,
        w: if config.density {
            by_density(
                w,
                stands_for(window, i),
                time_sum(window, window.len()),
                window.len() as int,
            ) as u128
        } else {
            w as u128
        },
    }
}

/// Whether rows are ones that the arithmetic holds, with weights of `limit` at
/// most in all.
pub open spec fn rows_within(rows: Seq<Row>, limit: int) -> bool {
    &&& rows.len() <= MAX_ROWS
    &&& total_weight(rows) <= limit
    &&& forall|i: int|
        0 <= i < rows.len() ==> -OFFSET_LIMIT <= (#[trigger] rows[i]).offset <= OFFSET_LIMIT
}

/// Whether rows are ones that a line is fitted through: their weights are the full
/// weight on the average, at most.
pub open spec fn rows_fit(rows: Seq<Row>) -> bool {
    rows_within(rows, MAX_ROWS * FULL_WEIGHT)
}

/// The sum of the weights.
pub open spec fn total_weight(rows: Seq<Row>) -> int {
    sum_of(rows, |r: Row| r.w as int)
}

/// The weighted mean of the times.
pub open spec fn mean_time(rows: Seq<Row>) -> int {
    let base = rows[0].t as int;
    base + toward_zero(sum_of(rows, |r: Row| r.w * (r.t - base)), total_weight(rows))
}

/// The weighted mean of the offsets.
pub open spec fn mean_offset(rows: Seq<Row>) -> int {
    toward_zero(sum_of(rows, |r: Row| r.w * r.offset), total_weight(rows))
}

/// The weighted least-squares slope about a point, in parts per quadrillion; none
/// where the samples are at one time.
pub open spec fn slope(rows: Seq<Row>, t0: int, a: int) -> int {
    let xx = sum_of(rows, |r: Row| r.w * ((r.t - t0) * (r.t - t0)));
    let xy = sum_of(rows, |r: Row| r.w * ((r.t - t0) * (r.offset - a)));
    if xx <= 1_000_000 * FULL_WEIGHT {
        0
    } else {
        within(toward_zero(xy * 1_000_000_000_000, xx), FREQ_LIMIT as int)
    }
}

/// The weighted least-squares line through rows.
pub open spec fn fit_of(rows: Seq<Row>) -> Fit {
    let t0 = mean_time(rows);
    let a = mean_offset(rows);
    Fit { t0: t0 as u64, a: a as i128, b: slope(rows, t0, a) as i64 }
}

pub(crate) proof fn lemma_sum_le(rows: Seq<Row>, f: spec_fn(Row) -> int, g: spec_fn(Row) -> int)
    requires
        forall|i: int| 0 <= i < rows.len() ==> f(#[trigger] rows[i]) <= g(rows[i]),
    ensures
        sum_of(rows, f) <= sum_of(rows, g),
    decreases rows.len(),
{
    if rows.len() > 0 {
        assert forall|i: int| 0 <= i < rows.drop_last().len() implies f(
            #[trigger] rows.drop_last()[i],
        ) <= g(rows.drop_last()[i]) by {
            assert(rows.drop_last()[i] == rows[i]);
        }
        lemma_sum_le(rows.drop_last(), f, g);
        assert(rows.last() == rows[rows.len() - 1]);
    }
}

proof fn lemma_sum_bounds(rows: Seq<Row>, f: spec_fn(Row) -> int, low: int, high: int)
    requires
        forall|i: int| 0 <= i < rows.len() ==> low <= f(#[trigger] rows[i]) <= high,
    ensures
        low * rows.len() <= sum_of(rows, f) <= high * rows.len(),
    decreases rows.len(),
{
    if rows.len() > 0 {
        let n = rows.len() as int;
        assert forall|i: int| 0 <= i < rows.drop_last().len() implies low <= f(
            #[trigger] rows.drop_last()[i],
        ) <= high by {
            assert(rows.drop_last()[i] == rows[i]);
        }
        lemma_sum_bounds(rows.drop_last(), f, low, high);
        assert(rows.last() == rows[n - 1]);
        assert(rows.drop_last().len() == n - 1);
        assert(low * (n - 1) + low == low * n && high * (n - 1) + high == high * n)
            by (nonlinear_arith);
        assert(low * (n - 1) <= sum_of(rows.drop_last(), f) <= high * (n - 1));
    } else {
        assert(low * 0 == 0 && high * 0 == 0);
    }
}

pub(crate) proof fn lemma_sum_scaled(rows: Seq<Row>, f: spec_fn(Row) -> int, c: int)
    ensures
        sum_of(rows, |r: Row| c * f(r)) == c * sum_of(rows, f),
    decreases rows.len(),
{
    if rows.len() > 0 {
        lemma_sum_scaled(rows.drop_last(), f, c);
        let s = sum_of(rows.drop_last(), f);
        let x = f(rows.last());
        assert(c * s + c * x == c * (s + x)) by (nonlinear_arith);
    } else {
        assert(c * 0 == 0);
    }
}

proof fn lemma_sum_step(rows: Seq<Row>, i: int, f: spec_fn(Row) -> int)
    requires
        0 <= i < rows.len(),
    ensures
        sum_of(rows.take(i + 1), f) == sum_of(rows.take(i), f) + f(rows[i]),
{
    assert(rows.take(i + 1).drop_last() =~= rows.take(i));
    assert(rows.take(i + 1).last() == rows[i]);
}

/// A weighted mean lies where every value lies.
pub(crate) proof fn lemma_mean_between(rows: Seq<Row>, v: spec_fn(Row) -> int, low: int, high: int)
    requires
        total_weight(rows) >= 1,
        forall|i: int| 0 <= i < rows.len() ==> low <= v(#[trigger] rows[i]) <= high,
    ensures
        low <= toward_zero(sum_of(rows, |r: Row| r.w * v(r)), total_weight(rows)) <= high,
        low * total_weight(rows) <= sum_of(rows, |r: Row| r.w * v(r)) <= high * total_weight(rows),
{
    let w = |r: Row| r.w as int;
    let wv = |r: Row| r.w * v(r);
    let sw = total_weight(rows);
    let swv = sum_of(rows, wv);
    assert forall|i: int| 0 <= i < rows.len() implies (|r: Row| low * w(r))(#[trigger] rows[i])
        <= wv(rows[i]) && wv(rows[i]) <= (|r: Row| high * w(r))(rows[i]) by {
        let x = v(rows[i]);
        let k = rows[i].w as int;
        assert(low * k <= k * x <= high * k) by (nonlinear_arith)
            requires
                low <= x <= high,
                k >= 0,
        ;
    }
    lemma_sum_le(rows, |r: Row| low * w(r), wv);
    lemma_sum_le(rows, wv, |r: Row| high * w(r));
    lemma_sum_scaled(rows, w, low);
    lemma_sum_scaled(rows, w, high);
    lemma_mean_within(swv, sw, low, high);
}

/// A sum over rows is the sum over the first of them and over the rest.
pub(crate) proof fn lemma_sum_split(rows: Seq<Row>, i: int, f: spec_fn(Row) -> int)
    requires
        0 <= i <= rows.len(),
    ensures
        sum_of(rows, f) == sum_of(rows.take(i), f) + sum_of(rows.skip(i), f),
    decreases rows.len() - i,
{
    if i == rows.len() {
        assert(rows.take(i) =~= rows);
    } else {
        lemma_sum_split(rows.drop_last(), i, f);
        assert(rows.drop_last().take(i) =~= rows.take(i));
        assert(rows.drop_last().skip(i) =~= rows.skip(i).drop_last());
        assert(rows.skip(i).last() == rows.last());
    }
}

/// No part of the rows weighs less than nothing, or more than all.
pub(crate) proof fn lemma_part_weight(rows: Seq<Row>, i: int)
    requires
        0 <= i <= rows.len(),
    ensures
        0 <= total_weight(rows.take(i)) <= total_weight(rows),
        0 <= total_weight(rows.skip(i)) <= total_weight(rows),
{
    lemma_sum_split(rows, i, |r: Row| r.w as int);
    lemma_weight_of_rows(rows.take(i));
    lemma_weight_of_rows(rows.skip(i));
}

pub(crate) proof fn lemma_weight_of_rows(rows: Seq<Row>)
    ensures
        total_weight(rows) >= 0,
    decreases rows.len(),
{
    if rows.len() > 0 {
        lemma_weight_of_rows(rows.drop_last());
    }
}

/// The weights of rows, together.
fn weigh(rows: &[Row]) -> (sum: u128)
    requires
        rows_fit(rows@),
    ensures
        sum == total_weight(rows@),
{
    let ghost ww = |r: Row| r.w as int;
    let mut sum: u128 = 0;
    let mut i: usize = 0;
    while i < rows.len()
        invariant
            i <= rows@.len(),
            rows_fit(rows@),
            ww == (|r: Row| r.w as int),
            sum == sum_of(rows@.take(i as int), ww),
        decreases rows@.len() - i,
    {
        proof {
            lemma_sum_step(rows@, i as int, ww);
            lemma_part_weight(rows@, i + 1);
        }
        sum = sum + rows[i].w;
        i = i + 1;
    }
    assert(rows@.take(i as int) =~= rows@);
    sum
}

/// What lies between two sums, divided by a weight.
fn mean_between(up: Wide, down: Wide, weight: u128, limit: u128) -> (mean: i128)
    requires
        0 < weight <= 0x10_0000_0000_0000_0000_0000_0000,
        limit <= 0x1_0000_0000_0000_0000_0000,
        -(limit * weight) <= up.value() - down.value() <= limit * weight,
    ensures
        mean == toward_zero(up.value() - down.value(), weight as int),
        -limit <= mean <= limit,
{
    let falls: bool = up.at_most(down);
    let far: Wide = if falls {
        down.minus(up)
    } else {
        up.minus(down)
    };
    let ghost v = far.value() as int;
    let ghost d = weight as int;
    proof {
        assert(full_range() == 0x1_0000_0000_0000_0000_0000_0000_0000_0000_0000_0000_0000_0000_0000_0000_0000_0000int);
        assert(0 <= d * limit <= 0x10_0000_0000_0000_0000_0000_0000
            * 0x1_0000_0000_0000_0000_0000) by (nonlinear_arith)
            requires
                0 <= d <= 0x10_0000_0000_0000_0000_0000_0000,
                0 <= limit <= 0x1_0000_0000_0000_0000_0000,
        ;
        assert(0 <= v / d <= limit) by (nonlinear_arith)
            requires
                0 <= v <= limit * d,
                d > 0,
        ;
        if v == 0 {
            assert(0int / d == 0) by (nonlinear_arith)
                requires
                    d > 0,
            ;
        }
    }
    let mean: u128 = quotient_up_to(far, Wide::new(weight), limit);
    if falls {
        -(mean as i128)
    } else {
        mean as i128
    }
}

/// The weighted means of time and offset.
fn means(rows: &[Row]) -> (m: (u64, i128))
    requires
        total_weight(rows@) >= 1,
        rows_within(rows@, MAX_ROWS * (FULL_WEIGHT * FULL_WEIGHT)),
    ensures
        m.0 == mean_time(rows@),
        m.1 == mean_offset(rows@),
        -OFFSET_LIMIT <= m.1 <= OFFSET_LIMIT,
{
    let base: u64 = rows[0].t;
    let ghost wt = |r: Row| r.w * (r.t - base as int);
    let ghost wy = |r: Row| r.w * r.offset;
    let ghost ww = |r: Row| r.w as int;
    let mut sw: u128 = 0;
    let mut later: Wide = Wide::new(0);
    let mut sooner: Wide = Wide::new(0);
    let mut up: Wide = Wide::new(0);
    let mut down: Wide = Wide::new(0);
    let mut i: usize = 0;
    proof {
        assert(full_range() == 0x1_0000_0000_0000_0000_0000_0000_0000_0000_0000_0000_0000_0000_0000_0000_0000_0000int);
        assert(MAX_ROWS * (FULL_WEIGHT * FULL_WEIGHT) <= 0x10_0000_0000_0000_0000_0000_0000);
    }
    while i < rows.len()
        invariant
            i <= rows@.len(),
            rows_within(rows@, 0x10_0000_0000_0000_0000_0000_0000),
            full_range() == 0x1_0000_0000_0000_0000_0000_0000_0000_0000_0000_0000_0000_0000_0000_0000_0000_0000int,
            wt == (|r: Row| r.w * (r.t - base as int)),
            wy == (|r: Row| r.w * r.offset),
            ww == (|r: Row| r.w as int),
            sw == sum_of(rows@.take(i as int), ww),
            sw <= 0x10_0000_0000_0000_0000_0000_0000,
            later.value() - sooner.value() == sum_of(rows@.take(i as int), wt),
            up.value() - down.value() == sum_of(rows@.take(i as int), wy),
            later.value() <= sw * 0x1_0000_0000_0000_0000,
            sooner.value() <= sw * 0x1_0000_0000_0000_0000,
            up.value() <= sw * 0x1_0000_0000_0000_0000_0000,
            down.value() <= sw * 0x1_0000_0000_0000_0000_0000,
        decreases rows@.len() - i,
    {
        let r: Row = rows[i];
        let rel: i128 = r.t as i128 - base as i128;
        proof {
            lemma_sum_step(rows@, i as int, ww);
            lemma_sum_step(rows@, i as int, wt);
            lemma_sum_step(rows@, i as int, wy);
            lemma_part_weight(rows@, i + 1);
            let w = r.w as int;
            let x = size(rel as int) as int;
            let y = size(r.offset as int) as int;
            assert(0 <= w * x <= w * 0x1_0000_0000_0000_0000) by (nonlinear_arith)
                requires
                    0 <= w,
                    0 <= x <= 0x1_0000_0000_0000_0000,
            ;
            assert(0 <= w * y <= w * 0x1_0000_0000_0000_0000_0000) by (nonlinear_arith)
                requires
                    0 <= w,
                    0 <= y <= 0x1_0000_0000_0000_0000_0000,
            ;
            let o = r.offset as int;
            let t = rel as int;
            assert(w * (-o) == -(w * o) && w * (-t) == -(w * t)) by (nonlinear_arith);
        }
        sw = sw + r.w;
        let span: Wide = Wide::product(r.w, magnitude(rel));
        if rel < 0 {
            sooner = sooner.plus(span);
        } else {
            later = later.plus(span);
        }
        let term: Wide = Wide::product(r.w, magnitude(r.offset));
        if r.offset < 0 {
            down = down.plus(term);
        } else {
            up = up.plus(term);
        }
        i = i + 1;
    }
    proof {
        assert(rows@.take(i as int) =~= rows@);
        lemma_mean_between(
            rows@,
            |r: Row| r.t - base as int,
            -(base as int),
            u64::MAX - base as int,
        );
        lemma_mean_between(
            rows@,
            |r: Row| r.offset as int,
            -(OFFSET_LIMIT as int),
            OFFSET_LIMIT as int,
        );
        assert(sum_of(rows@, |r: Row| r.w * (|r: Row| r.t - base as int)(r)) == sum_of(rows@, wt))
            by {
            lemma_sum_le(rows@, |r: Row| r.w * (|r: Row| r.t - base as int)(r), wt);
            lemma_sum_le(rows@, wt, |r: Row| r.w * (|r: Row| r.t - base as int)(r));
        }
        assert(sum_of(rows@, |r: Row| r.w * (|r: Row| r.offset as int)(r)) == sum_of(rows@, wy))
            by {
            lemma_sum_le(rows@, |r: Row| r.w * (|r: Row| r.offset as int)(r), wy);
            lemma_sum_le(rows@, wy, |r: Row| r.w * (|r: Row| r.offset as int)(r));
        }
        let d = sw as int;
        let b = base as int;
        assert(-(b) * d >= -(0x1_0000_0000_0000_0000 * d) && (u64::MAX - b) * d
            <= 0x1_0000_0000_0000_0000 * d) by (nonlinear_arith)
            requires
                0 <= b <= u64::MAX,
                d >= 0,
        ;
        assert(-(OFFSET_LIMIT as int) * d == -(OFFSET_LIMIT * d)) by (nonlinear_arith);
    }
    let ahead: i128 = mean_between(later, sooner, sw, 0x1_0000_0000_0000_0000);
    let t0: i128 = base as i128 + ahead;
    (t0 as u64, mean_between(up, down, sw, OFFSET_LIMIT as u128))
}

/// The size of a number.
fn magnitude(x: i128) -> (m: u128)
    requires
        x > i128::MIN,
    ensures
        m == size(x as int),
{
    if x < 0 {
        (-x) as u128
    } else {
        x as u128
    }
}

/// The product of a weight and two sizes, as far as the weight goes.
proof fn lemma_term_fits(w: int, x: int, y: int)
    requires
        0 <= w,
        0 <= x <= 0x1_0000_0000_0000_0000,
        0 <= y <= 0x80_0000_0000_0000_0000_0000,
    ensures
        0 <= x * y <= 0x80_0000_0000_0000_0000_0000_0000_0000_0000_0000int,
        0 <= (x * y) * w <= w * 0x80_0000_0000_0000_0000_0000_0000_0000_0000_0000int,
        0 <= w * (x * y),
{
    assert(0 <= x * y <= 0x1_0000_0000_0000_0000 * 0x80_0000_0000_0000_0000_0000)
        by (nonlinear_arith)
        requires
            0 <= x <= 0x1_0000_0000_0000_0000,
            0 <= y <= 0x80_0000_0000_0000_0000_0000,
    ;
    let p = x * y;
    assert(0 <= p * w <= w * 0x80_0000_0000_0000_0000_0000_0000_0000_0000_0000int)
        by (nonlinear_arith)
        requires
            0 <= p <= 0x80_0000_0000_0000_0000_0000_0000_0000_0000_0000int,
            0 <= w,
    ;
    assert(p * w == w * p) by (nonlinear_arith);
}

proof fn lemma_product_sign(x: int, y: int)
    ensures
        (x < 0) == (y < 0) ==> x * y == size(x) * size(y),
        (x < 0) != (y < 0) ==> x * y == -(size(x) * size(y)),
{
    assert((-x) * (-y) == x * y && (-x) * y == -(x * y) && x * (-y) == -(x * y))
        by (nonlinear_arith);
}

/// The weighted least-squares slope about a point.
fn fitted_slope(rows: &[Row], t0: u64, a: i128) -> (b: i64)
    requires
        rows_fit(rows@),
        -OFFSET_LIMIT <= a <= OFFSET_LIMIT,
    ensures
        b == slope(rows@, t0 as int, a as int),
        -FREQ_LIMIT <= b <= FREQ_LIMIT,
{
    let ghost fxx = |r: Row| r.w * ((r.t - t0 as int) * (r.t - t0 as int));
    let ghost fxy = |r: Row| r.w * ((r.t - t0 as int) * (r.offset - a as int));
    let ghost ww = |r: Row| r.w as int;
    let ghost mut sw: int = 0;
    let mut xx: Wide = Wide::new(0);
    let mut up: Wide = Wide::new(0);
    let mut down: Wide = Wide::new(0);
    let mut i: usize = 0;
    proof {
        assert(full_range() == 0x1_0000_0000_0000_0000_0000_0000_0000_0000_0000_0000_0000_0000_0000_0000_0000_0000int);
    }
    while i < rows.len()
        invariant
            i <= rows@.len() <= 0xF_FFFF,
            rows_fit(rows@),
            -OFFSET_LIMIT <= a <= OFFSET_LIMIT,
            fxx == (|r: Row| r.w * ((r.t - t0 as int) * (r.t - t0 as int))),
            fxy == (|r: Row| r.w * ((r.t - t0 as int) * (r.offset - a as int))),
            ww == (|r: Row| r.w as int),
            sw == sum_of(rows@.take(i as int), ww),
            xx.value() == sum_of(rows@.take(i as int), fxx),
            up.value() - down.value() == sum_of(rows@.take(i as int), fxy),
            0 <= sw <= 0xF_FFFF * 0x100_0000_0000,
            xx.value() <= sw * 0x1_0000_0000_0000_0000_0000_0000_0000_0000int,
            up.value() <= sw * 0x80_0000_0000_0000_0000_0000_0000_0000_0000_0000int,
            down.value() <= sw * 0x80_0000_0000_0000_0000_0000_0000_0000_0000_0000int,
            full_range() == 0x1_0000_0000_0000_0000_0000_0000_0000_0000_0000_0000_0000_0000_0000_0000_0000_0000int,
        decreases rows@.len() - i,
    {
        let r: Row = rows[i];
        let x: i128 = r.t as i128 - t0 as i128;
        let y: i128 = r.offset - a;
        let mx: u128 = magnitude(x);
        let my: u128 = magnitude(y);
        proof {
            lemma_sum_step(rows@, i as int, fxx);
            lemma_sum_step(rows@, i as int, fxy);
            lemma_sum_step(rows@, i as int, ww);
            lemma_part_weight(rows@, i + 1);
            lemma_term_fits(r.w as int, mx as int, mx as int);
            lemma_term_fits(r.w as int, mx as int, my as int);
            lemma_product_sign(x as int, x as int);
            lemma_product_sign(x as int, y as int);
            let p = mx * my;
            let w = r.w as int;
            assert(w * (-p) == -(w * p) && p * w == w * p) by (nonlinear_arith);
            let q = mx * mx;
            assert(q * w == w * q) by (nonlinear_arith);
            assert(q <= 0x1_0000_0000_0000_0000_0000_0000_0000_0000int) by (nonlinear_arith)
                requires
                    q == mx * mx,
                    0 <= mx <= 0x1_0000_0000_0000_0000,
            ;
            assert(0 <= q * w <= w * 0x1_0000_0000_0000_0000_0000_0000_0000_0000int)
                by (nonlinear_arith)
                requires
                    0 <= q <= 0x1_0000_0000_0000_0000_0000_0000_0000_0000int,
                    w >= 0,
            ;
            sw = sw + w;
        }
        xx = xx.plus(Wide::product(mx, mx).times(r.w));
        let term: Wide = Wide::product(mx, my).times(r.w);
        if (x < 0) == (y < 0) {
            up = up.plus(term);
        } else {
            down = down.plus(term);
        }
        i = i + 1;
    }
    assert(rows@.take(i as int) =~= rows@);
    let ghost sxx = sum_of(rows@, fxx);
    let ghost sxy = sum_of(rows@, fxy);
    let least: Wide = Wide::product(1_000_000, FULL_WEIGHT as u128);
    if xx.at_most(least) {
        return 0;
    }
    let falls: bool = up.at_most(down);
    let rise: Wide = if falls {
        down.minus(up)
    } else {
        up.minus(down)
    };
    let scaled: Wide = rise.times(1_000_000_000_000);
    proof {
        let d = xx.value() as int;
        assert(d * FREQ_LIMIT <= (0xF_FFFF * 0x100_0000_0000_0000_0000_0000_0000_0000_0000_0000_0000int)
            * 0x4000_0000_0000_0000) by (nonlinear_arith)
            requires
                0 <= d <= 0xF_FFFF
                    * 0x100_0000_0000_0000_0000_0000_0000_0000_0000_0000_0000int,
                0 <= FREQ_LIMIT <= 0x4000_0000_0000_0000,
        ;
    }
    let q: u128 = quotient_up_to(scaled, xx, FREQ_LIMIT as u128);
    proof {
        let v = rise.value() as int;
        assert(falls ==> sxy == -v);
        assert(!falls ==> sxy == v && v > 0);
        if v == 0 {
            assert(0int / sxx == 0) by (nonlinear_arith)
                requires
                    sxx > 0,
            ;
        }
    }
    if falls {
        -(q as i64)
    } else {
        q as i64
    }
}

/// Fit a line through rows.
fn fit(rows: &[Row]) -> (line: Fit)
    requires
        total_weight(rows@) >= 1,
        rows_fit(rows@),
    ensures
        line == fit_of(rows@),
        fit_holds(line),
{
    let (t0, a): (u64, i128) = means(rows);
    Fit { t0, a, b: fitted_slope(rows, t0, a) }
}

/// Whether a line is one that the arithmetic holds.
pub open spec fn fit_holds(line: Fit) -> bool {
    -OFFSET_LIMIT <= line.a <= OFFSET_LIMIT && -FREQ_LIMIT <= line.b <= FREQ_LIMIT
}

/// How far a row lies above a line.
pub open spec fn residual(row: Row, line: Fit) -> int {
    row.offset - (line.a + drift_ps(line.b as int, row.t - line.t0))
}

/// The sizes of the residuals.
pub open spec fn sizes(rows: Seq<Row>, line: Fit) -> Seq<i128> {
    rows.map_values(|r: Row| size(residual(r, line)) as i128)
}

pub(crate) proof fn lemma_residual_fits(row: Row, line: Fit)
    requires
        -OFFSET_LIMIT <= row.offset <= OFFSET_LIMIT,
        fit_holds(line),
    ensures
        size(residual(row, line)) <= 0x100_0000_0000_0000_0000_0000,
        size(drift_ps(line.b as int, row.t - line.t0)) <= 0x80_0000_0000_0000_0000_0000,
{
    let b = line.b as int;
    let dt = row.t - line.t0;
    assert(-0x4000_0000_0000_0000_0000_0000_0000_0000 <= b * dt
        <= 0x4000_0000_0000_0000_0000_0000_0000_0000) by (nonlinear_arith)
        requires
            -0x4000_0000_0000_0000 <= b <= 0x4000_0000_0000_0000,
            -0x1_0000_0000_0000_0000 <= dt <= 0x1_0000_0000_0000_0000,
    ;
}

/// How far a row lies above a line.
fn residual_of(row: &Row, line: &Fit) -> (r: i128)
    requires
        -OFFSET_LIMIT <= row.offset <= OFFSET_LIMIT,
        fit_holds(*line),
    ensures
        r == residual(*row, *line),
        size(r as int) <= 0x100_0000_0000_0000_0000_0000,
{
    proof {
        lemma_residual_fits(*row, *line);
    }
    row.offset - (line.a + drift(line.b, row.t as i128 - line.t0 as i128))
}

/// The sizes of the residuals.
fn sizes_of(rows: &[Row], line: &Fit) -> (s: Vec<i128>)
    requires
        rows_fit(rows@),
        fit_holds(*line),
    ensures
        s@ == sizes(rows@, *line),
        forall|i: int| 0 <= i < s@.len() ==> 0 <= #[trigger] s@[i] <= 0x100_0000_0000_0000_0000_0000,
{
    let mut s: Vec<i128> = Vec::new();
    let mut i: usize = 0;
    while i < rows.len()
        invariant
            i <= rows@.len(),
            rows_fit(rows@),
            fit_holds(*line),
            s@ == sizes(rows@.take(i as int), *line),
            forall|j: int|
                0 <= j < s@.len() ==> 0 <= #[trigger] s@[j] <= 0x100_0000_0000_0000_0000_0000,
        decreases rows@.len() - i,
    {
        let r: i128 = residual_of(&rows[i], line);
        s.push(if r < 0 { -r } else { r });
        i = i + 1;
        assert(s@ =~= sizes(rows@.take(i as int), *line));
    }
    assert(rows@.take(i as int) =~= rows@);
    s
}

/// The signs of the residuals, in order of time.
pub open spec fn signs(rows: Seq<Row>, line: Fit) -> Seq<bool> {
    rows.map_values(|r: Row| residual(r, line) > 0)
}

/// How many runs of equal signs there are.
pub open spec fn runs(signs: Seq<bool>) -> nat
    decreases signs.len(),
{
    if signs.len() == 0 {
        0
    } else if signs.len() == 1 || signs[signs.len() - 2] != signs.last() {
        runs(signs.drop_last()) + 1
    } else {
        runs(signs.drop_last())
    }
}

/// Whether the residuals are well mixed: as many runs of one sign as a third of
/// the window. A window across two regimes has very few.
pub open spec fn well_mixed(rows: Seq<Row>, line: Fit) -> bool {
    3 * runs(signs(rows, line)) >= rows.len()
}

/// Whether the residuals are well mixed.
fn residuals_well_mixed(rows: &[Row], line: &Fit) -> (mixed: bool)
    requires
        rows_fit(rows@),
        fit_holds(*line),
    ensures
        mixed == well_mixed(rows@, *line),
{
    let ghost all = signs(rows@, *line);
    let mut count: usize = 0;
    let mut last: bool = false;
    let mut i: usize = 0;
    assert(all.take(0) =~= Seq::empty());
    while i < rows.len()
        invariant
            i <= rows@.len() <= 0xF_FFFF,
            rows_fit(rows@),
            fit_holds(*line),
            all == signs(rows@, *line),
            count == runs(all.take(i as int)),
            count <= i,
            i > 0 ==> last == all[i - 1],
        decreases rows@.len() - i,
    {
        let above: bool = residual_of(&rows[i], line) > 0;
        proof {
            assert(all.take(i + 1).drop_last() =~= all.take(i as int));
            assert(all.take(i + 1).last() == all[i as int]);
            assert(all[i as int] == above);
        }
        if i == 0 || above != last {
            count = count + 1;
        }
        last = above;
        i = i + 1;
    }
    assert(all.take(i as int) =~= all);
    3 * count >= rows.len()
}

/// The fewest samples that a regime change is looked for in.
pub const REGIME_MIN_ROWS: usize = 8;

/// Whether the window's two halves disagree: their mean residuals are further
/// apart than three robust standard deviations, and than three nanoseconds. Both
/// sides are multiplied out, so that nothing is rounded.
pub open spec fn halves_differ(rows: Seq<Row>, line: Fit) -> bool {
    let n = rows.len() as int;
    let h = n / 2;
    let f = |r: Row| residual(r, line);
    let gap = size(sum_of(rows.take(h), f) * (n - h) - sum_of(rows.skip(h), f) * h);
    let noise = 44_478 * median(sizes(rows, line));
    gap * 10_000 > h * (n - h) * if noise > 30_000_000 {
        noise
    } else {
        30_000_000
    }
}

/// The sum of the residuals of some of the rows.
fn residual_sum(rows: &[Row], from: usize, to: usize, line: &Fit) -> (sum: i128)
    requires
        rows_fit(rows@),
        fit_holds(*line),
        from <= to <= rows@.len(),
    ensures
        sum == sum_of(
            rows@.subrange(from as int, to as int),
            |r: Row| residual(r, *line),
        ),
        size(sum as int) <= 0xF_FFFF * 0x100_0000_0000_0000_0000_0000,
{
    let ghost f = |r: Row| residual(r, *line);
    let mut sum: i128 = 0;
    let mut i: usize = from;
    assert(rows@.subrange(from as int, from as int) =~= Seq::empty());
    while i < to
        invariant
            from <= i <= to <= rows@.len() <= 0xF_FFFF,
            rows_fit(rows@),
            fit_holds(*line),
            f == (|r: Row| residual(r, *line)),
            sum == sum_of(rows@.subrange(from as int, i as int), f),
            size(sum as int) <= (i - from) * 0x100_0000_0000_0000_0000_0000,
        decreases to - i,
    {
        let r: i128 = residual_of(&rows[i], line);
        proof {
            let part = rows@.subrange(from as int, i + 1);
            assert(part.drop_last() =~= rows@.subrange(from as int, i as int));
            assert(part.last() == rows@[i as int]);
        }
        sum = sum + r;
        i = i + 1;
    }
    sum
}

/// Whether the window's two halves disagree.
fn do_halves_differ(rows: &[Row], line: &Fit) -> (differ: bool)
    requires
        rows@.len() > 0,
        rows_fit(rows@),
        fit_holds(*line),
    ensures
        differ == halves_differ(rows@, *line),
{
    let n: usize = rows.len();
    let h: usize = n / 2;
    let old_sum: i128 = residual_sum(rows, 0, h, line);
    let new_sum: i128 = residual_sum(rows, h, n, line);
    let all: Vec<i128> = sizes_of(rows, line);
    let mid: i128 = middle(all.as_slice());
    proof {
        let k = choose|k: int| 0 <= k < all@.len() && all@[k] == mid;
        assert(all@[k] == mid);
        assert(rows@.subrange(0, h as int) =~= rows@.take(h as int));
        assert(rows@.subrange(h as int, n as int) =~= rows@.skip(h as int));
    }
    let newer: u128 = (n - h) as u128;
    let older: u128 = h as u128;
    let noise: i128 = 44_478 * mid;
    let scale: i128 = if noise > 30_000_000 { noise } else { 30_000_000 };
    proof {
        assert(full_range() == 0x1_0000_0000_0000_0000_0000_0000_0000_0000_0000_0000_0000_0000_0000_0000_0000_0000int);
        let a = size(old_sum as int) as int;
        let b = size(new_sum as int) as int;
        assert(0 <= a * newer <= (0xF_FFFF * 0x100_0000_0000_0000_0000_0000) * 0xF_FFFF)
            by (nonlinear_arith)
            requires
                0 <= a <= 0xF_FFFF * 0x100_0000_0000_0000_0000_0000,
                0 <= newer <= 0xF_FFFF,
        ;
        assert(0 <= b * older <= (0xF_FFFF * 0x100_0000_0000_0000_0000_0000) * 0xF_FFFF)
            by (nonlinear_arith)
            requires
                0 <= b <= 0xF_FFFF * 0x100_0000_0000_0000_0000_0000,
                0 <= older <= 0xF_FFFF,
        ;
        let k = older * newer;
        assert(0 <= k <= 0xF_FFFF * 0xF_FFFF) by (nonlinear_arith)
            requires
                k == older * newer,
                0 <= older <= 0xF_FFFF,
                0 <= newer <= 0xF_FFFF,
        ;
        let x = old_sum as int;
        let y = new_sum as int;
        assert(x < 0 ==> x * newer == -(a * newer)) by (nonlinear_arith)
            requires
                x < 0 ==> x == -a,
        ;
        assert(y < 0 ==> y * older == -(b * older)) by (nonlinear_arith)
            requires
                y < 0 ==> y == -b,
        ;
    }
    let p: Wide = Wide::product(magnitude(old_sum), newer);
    let q: Wide = Wide::product(magnitude(new_sum), older);
    let gap: Wide = if (old_sum < 0) != (new_sum < 0) {
        p.plus(q)
    } else if p.at_most(q) {
        q.minus(p)
    } else {
        p.minus(q)
    };
    let reach: Wide = Wide::product(older * newer, scale as u128);
    !gap.times(10_000).at_most(reach)
}

/// Whether history is to be distrusted: enough samples, residuals that are not
/// well mixed, and halves that disagree.
pub open spec fn regime_changed(rows: Seq<Row>, line: Fit) -> bool {
    rows.len() >= REGIME_MIN_ROWS && !well_mixed(rows, line) && halves_differ(rows, line)
}

/// How many of the oldest samples go at once: a quarter, and two at least.
pub open spec fn regime_drop(n: int) -> int {
    if n / 4 < 2 {
        2
    } else {
        n / 4
    }
}

/// The rows left once stale history has been dropped, in at most `passes` goes,
/// and the line through them. The present is never distrusted. Rows that weigh
/// nothing have no line of their own: the last one stands.
pub open spec fn current_regime(rows: Seq<Row>, line: Fit, passes: nat) -> (Seq<Row>, Fit)
    decreases passes,
{
    if passes == 0 || !regime_changed(rows, line) {
        (rows, line)
    } else {
        let rest = rows.skip(regime_drop(rows.len() as int));
        if total_weight(rest) == 0 {
            (rest, line)
        } else {
            current_regime(rest, fit_of(rest), (passes - 1) as nat)
        }
    }
}

/// How often history may be dropped.
pub const REGIME_PASSES: usize = 4;

fn without_first(rows: &[Row], count: usize) -> (rest: Vec<Row>)
    requires
        count <= rows@.len(),
        rows_fit(rows@),
    ensures
        rest@ == rows@.skip(count as int),
        rows_fit(rest@),
{
    let mut rest: Vec<Row> = Vec::new();
    let mut i: usize = count;
    while i < rows.len()
        invariant
            count <= i <= rows@.len(),
            rest@ == rows@.subrange(count as int, i as int),
        decreases rows@.len() - i,
    {
        rest.push(rows[i]);
        i = i + 1;
        assert(rest@ =~= rows@.subrange(count as int, i as int));
    }
    assert(rest@ =~= rows@.skip(count as int));
    proof {
        lemma_part_weight(rows@, count as int);
    }
    rest
}

/// Drop stale history.
fn drop_stale(rows: Vec<Row>, line: Fit) -> (kept: (Vec<Row>, Fit))
    requires
        rows@.len() >= 3,
        rows_fit(rows@),
        fit_holds(line),
    ensures
        (kept.0@, kept.1) == current_regime(rows@, line, REGIME_PASSES as nat),
        kept.0@.len() >= 3,
        rows_fit(kept.0@),
        fit_holds(kept.1),
{
    let mut kept: Vec<Row> = rows;
    let mut now: Fit = line;
    let mut left: usize = REGIME_PASSES;
    while left > 0
        invariant_except_break
            current_regime(rows@, line, REGIME_PASSES as nat) == current_regime(
                kept@,
                now,
                left as nat,
            ),
        invariant
            kept@.len() >= 3,
            rows_fit(kept@),
            fit_holds(now),
        ensures
            (kept@, now) == current_regime(rows@, line, REGIME_PASSES as nat),
        decreases left,
    {
        let n: usize = kept.len();
        if n < REGIME_MIN_ROWS {
            break;
        }
        if residuals_well_mixed(kept.as_slice(), &now) {
            break;
        }
        if !do_halves_differ(kept.as_slice(), &now) {
            break;
        }
        let drop: usize = if n / 4 < 2 { 2 } else { n / 4 };
        let rest: Vec<Row> = without_first(kept.as_slice(), drop);
        kept = rest;
        if weigh(kept.as_slice()) == 0 {
            break;
        }
        proof {
            lemma_weight_of_rows(kept@);
        }
        now = fit(kept.as_slice());
        left = left - 1;
    }
    (kept, now)
}

/// The samples that are never dropped as spikes, however they look: the present
/// can never be voted away.
pub const PROTECTED_ROWS: usize = 3;

/// The largest of some numbers, zero at least.
pub open spec fn largest(s: Seq<i128>) -> int
    decreases s.len(),
{
    if s.len() == 0 {
        0
    } else {
        let before = largest(s.drop_last());
        if s.last() > before {
            s.last() as int
        } else {
            before
        }
    }
}

/// How many of some sizes are dwarfed by `worst`: three robust standard
/// deviations of their own size do not reach it.
pub open spec fn dwarfed(s: Seq<i128>, worst: int) -> nat
    decreases s.len(),
{
    if s.len() == 0 {
        0
    } else {
        dwarfed(s.drop_last(), worst) + if 44_478 * s.last() < 10_000 * worst {
            1nat
        } else {
            0
        }
    }
}

/// The largest residual that a sample may have and not be a spike, times ten
/// thousand: three robust standard deviations, and a nanosecond at least. `None`
/// where no sample that could go exceeds it.
pub open spec fn spike_limit(s: Seq<i128>) -> Option<int> {
    let n = s.len() as int;
    let worst = largest(
        s.take(
            if n > PROTECTED_ROWS {
                n - PROTECTED_ROWS
            } else {
                0
            },
        ),
    );
    if worst <= 1000 || dwarfed(s, worst) < n / 2 + 1 {
        None
    } else if 44_478 * median(s) > 10_000_000 {
        Some(44_478 * median(s))
    } else {
        Some(10_000_000)
    }
}

/// Of the first `n` rows, those that are no spikes.
pub open spec fn no_spikes(rows: Seq<Row>, s: Seq<i128>, limit: int, n: nat) -> Seq<Row>
    decreases n,
{
    if n == 0 {
        Seq::empty()
    } else if n - 1 >= rows.len() - PROTECTED_ROWS || 10_000 * s[n - 1] <= limit {
        no_spikes(rows, s, limit, (n - 1) as nat).push(rows[n - 1])
    } else {
        no_spikes(rows, s, limit, (n - 1) as nat)
    }
}

/// The rows left once spikes (delayed packets) have been dropped, and the line
/// through them.
pub open spec fn despiked(rows: Seq<Row>, line: Fit) -> (Seq<Row>, Fit) {
    let s = sizes(rows, line);
    if rows.len() <= 4 || spike_limit(s) is None {
        (rows, line)
    } else {
        let kept = no_spikes(rows, s, spike_limit(s)->Some_0, rows.len());
        if kept.len() >= 3 && total_weight(kept) > 0 {
            (kept, fit_of(kept))
        } else {
            (rows, line)
        }
    }
}

fn largest_of(s: &[i128], n: usize) -> (worst: i128)
    requires
        n <= s@.len(),
    ensures
        worst == largest(s@.take(n as int)),
        worst >= 0,
        worst == 0 || s@.contains(worst),
{
    let mut worst: i128 = 0;
    let mut i: usize = 0;
    assert(s@.take(0) =~= Seq::empty());
    while i < n
        invariant
            i <= n <= s@.len(),
            worst == largest(s@.take(i as int)),
            worst >= 0,
            worst == 0 || s@.contains(worst),
        decreases n - i,
    {
        assert(s@.take(i + 1).drop_last() =~= s@.take(i as int));
        if s[i] > worst {
            worst = s[i];
        }
        i = i + 1;
    }
    worst
}

fn count_dwarfed(s: &[i128], worst: i128) -> (count: usize)
    requires
        s@.len() <= 0xF_FFFF,
        0 <= worst <= 0x100_0000_0000_0000_0000_0000,
        forall|i: int| 0 <= i < s@.len() ==> 0 <= #[trigger] s@[i] <= 0x100_0000_0000_0000_0000_0000,
    ensures
        count == dwarfed(s@, worst as int),
{
    let mut count: usize = 0;
    let mut i: usize = 0;
    assert(s@.take(0) =~= Seq::empty());
    while i < s.len()
        invariant
            i <= s@.len() <= 0xF_FFFF,
            0 <= worst <= 0x100_0000_0000_0000_0000_0000,
            forall|j: int|
                0 <= j < s@.len() ==> 0 <= #[trigger] s@[j] <= 0x100_0000_0000_0000_0000_0000,
            count == dwarfed(s@.take(i as int), worst as int),
            count <= i,
        decreases s@.len() - i,
    {
        assert(s@.take(i + 1).drop_last() =~= s@.take(i as int));
        if 44_478 * s[i] < 10_000 * worst {
            count = count + 1;
        }
        i = i + 1;
    }
    assert(s@.take(i as int) =~= s@);
    count
}

/// Drop spikes.
fn drop_spikes(rows: Vec<Row>, line: Fit) -> (kept: (Vec<Row>, Fit))
    requires
        rows@.len() >= 3,
        rows_fit(rows@),
        fit_holds(line),
    ensures
        (kept.0@, kept.1) == despiked(rows@, line),
        kept.0@.len() >= 3,
        rows_fit(kept.0@),
        fit_holds(kept.1),
{
    let n: usize = rows.len();
    if n <= 4 {
        return (rows, line);
    }
    let s: Vec<i128> = sizes_of(rows.as_slice(), &line);
    let worst: i128 = largest_of(s.as_slice(), n - PROTECTED_ROWS);
    if worst <= 1000 {
        return (rows, line);
    }
    proof {
        let k = choose|k: int| 0 <= k < s@.len() && s@[k] == worst;
        assert(s@[k] == worst);
    }
    if count_dwarfed(s.as_slice(), worst) < n / 2 + 1 {
        return (rows, line);
    }
    let mid: i128 = middle(s.as_slice());
    proof {
        let k = choose|k: int| 0 <= k < s@.len() && s@[k] == mid;
        assert(s@[k] == mid);
    }
    let limit: i128 = if 44_478 * mid > 10_000_000 { 44_478 * mid } else { 10_000_000 };
    let mut kept: Vec<Row> = Vec::new();
    let mut i: usize = 0;
    let ghost ww = |r: Row| r.w as int;
    while i < n
        invariant
            i <= n == rows@.len() == s@.len(),
            4 < n <= 0xF_FFFF,
            rows_fit(rows@),
            ww == (|r: Row| r.w as int),
            forall|j: int|
                0 <= j < s@.len() ==> 0 <= #[trigger] s@[j] <= 0x100_0000_0000_0000_0000_0000,
            kept@ == no_spikes(rows@, s@, limit as int, i as nat),
            kept@.len() <= i,
            total_weight(kept@) <= total_weight(rows@.take(i as int)),
            forall|j: int|
                0 <= j < kept@.len() ==> -OFFSET_LIMIT <= (#[trigger] kept@[j]).offset
                    <= OFFSET_LIMIT,
        decreases n - i,
    {
        let ghost before = kept@;
        proof {
            lemma_sum_step(rows@, i as int, ww);
        }
        if i >= n - PROTECTED_ROWS || 10_000 * s[i] <= limit {
            kept.push(rows[i]);
            assert(kept@.drop_last() =~= before);
        }
        i = i + 1;
    }
    proof {
        lemma_part_weight(rows@, n as int);
    }
    if kept.len() >= 3 && weigh(kept.as_slice()) > 0 {
        let refit: Fit = fit(kept.as_slice());
        (kept, refit)
    } else {
        (rows, line)
    }
}

/// The smallest delay of a window.
pub open spec fn least_delay(window: Seq<Sample>) -> i64 {
    choose|m: i64| is_min_delay(window, Some(m))
}

/// The rows of a window.
pub open spec fn rows_of(window: Seq<Sample>, config: RegressConfig) -> Seq<Row> {
    let min = least_delay(window) as int;
    Seq::new(window.len(), |i: int| row_of(window, i, min, config))
}

/// How old something of the time `t` is.
pub open spec fn age_of(now: u64, t: u64) -> int {
    if now > t {
        now - t
    } else {
        0
    }
}

/// The age of the youngest row.
pub open spec fn youngest(rows: Seq<Row>, now: u64) -> int
    decreases rows.len(),
{
    if rows.len() == 0 {
        u64::MAX as int
    } else {
        let before = youngest(rows.drop_last(), now);
        let own = age_of(now, rows.last().t);
        if own < before {
            own
        } else {
            before
        }
    }
}

/// What is left of a full weight at an age: all of it, where nothing fades.
pub open spec fn share_at(age: int, halflife: nat) -> int {
    if halflife == 0 {
        FULL_WEIGHT as int
    } else {
        fading(age as nat, halflife)
    }
}

/// Rows with their weights taken anew: over another floor, and faded with age.
/// What counts is how much older a row is than the youngest: all fade alike
/// beyond that.
pub open spec fn reweighted(
    rows: Seq<Row>,
    min_delay: int,
    floor: int,
    now: u64,
    halflife: u64,
    young: int,
) -> Seq<Row> {
    rows.map_values(
        |r: Row|
            Row {
                w: (weight_of(r.delay as int, min_delay, floor) * share_at(
                    age_of(now, r.t) - young,
                    halflife as nat,
                )) as u128,
                ..r
            },
    )
}

/// Whether the offset is weighted otherwise than the slope.
pub open spec fn weighs_anew(config: RegressConfig) -> bool {
    config.offset_floor_ppm != config.floor_ppm || config.dispersion_k_milli > 0 || config.halflife
        > 0
}

/// The rows that the offset is taken from, where it is weighted otherwise.
pub open spec fn offset_rows(
    used: Seq<Row>,
    min_delay: int,
    config: RegressConfig,
    now: u64,
) -> Seq<Row> {
    reweighted(
        used,
        min_delay,
        offset_floor(used, min_delay, config),
        now,
        config.halflife,
        youngest(used, now),
    )
}

/// The delays of rows.
pub open spec fn delays(rows: Seq<Row>) -> Seq<i128> {
    rows.map_values(|r: Row| r.delay as i128)
}

/// The floor under the excess delay for the offset alone.
pub open spec fn offset_floor(rows: Seq<Row>, min_delay: int, config: RegressConfig) -> int {
    if config.dispersion_k_milli == 0 {
        weight_floor(min_delay, config.offset_floor_ppm as int)
    } else {
        let spread = config.dispersion_k_milli * (median(delays(rows)) - min_delay) / 1000;
        let floor = weight_floor(min_delay, 100);
        if spread > floor {
            spread
        } else {
            floor
        }
    }
}

/// The sum of the weighted squares of the residuals.
pub open spec fn square_sum(rows: Seq<Row>, line: Fit) -> int {
    sum_of(rows, |r: Row| r.w * (residual(r, line) * residual(r, line)))
}

/// The fewest samples a frequency is taken from.
pub const FREQ_MIN_SAMPLES: usize = 4;

/// The shortest span a frequency is taken over: eight seconds.
pub const FREQ_MIN_SPAN_NS: u64 = 8_000_000_000;

/// The rows that a regression over a window uses, those of the current regime
/// that are no spikes, and the line through them.
pub open spec fn used_fit(window: Seq<Sample>, config: RegressConfig) -> (Seq<Row>, Fit) {
    let rows = rows_of(window, config);
    let (regime, line) = current_regime(rows, fit_of(rows), REGIME_PASSES as nat);
    despiked(regime, line)
}

/// The rows that a regression over a window uses.
pub open spec fn used_rows(window: Seq<Sample>, config: RegressConfig) -> Seq<Row> {
    used_fit(window, config).0
}

/// Whether `est` is what a regression over a window comes to.
pub open spec fn is_regression(
    window: Seq<Sample>,
    config: RegressConfig,
    now: u64,
    est: RegressEstimate,
) -> bool {
    let min = least_delay(window) as int;
    let (used, line) = used_fit(window, config);
    let n = used.len() as int;
    let sharp = offset_rows(used, min, config, now);
    let span = if used.last().t > used[0].t {
        used.last().t - used[0].t
    } else {
        0
    };
    let freedom = if n > 3 {
        n - 2
    } else {
        1
    };
    &&& est.n_used == n
    &&& est.span == span
    &&& est.freq_ppq == if n >= FREQ_MIN_SAMPLES && span >= FREQ_MIN_SPAN_NS {
        Some(line.b)
    } else {
        None
    }
    &&& est.offset == within(
        if weighs_anew(config) {
            mean_offset(sharp) + drift_ps(line.b as int, now - mean_time(sharp))
        } else {
            line.a + drift_ps(line.b as int, now - line.t0)
        },
        OFFSET_LIMIT as int,
    )
    &&& if total_weight(used) == 0 {
        est.offset_sd == 0
    } else {
        is_root(
            (square_sum(used, line) * n) as nat,
            (total_weight(used) * freedom) as nat,
            est.offset_sd,
        )
    }
}

fn floor_for(min_delay: i64, ratio_ppm: u32) -> (floor: i128)
    ensures
        floor == weight_floor(min_delay as int, ratio_ppm as int),
        1000 <= floor <= 0x100_0000_0000_0000_0000_0000,
{
    if min_delay <= 0 {
        return LEAST_FLOOR_PS as i128;
    }
    proof {
        assert(0 <= min_delay * ratio_ppm <= 0x8000_0000_0000_0000 * 0x1_0000_0000)
            by (nonlinear_arith)
            requires
                0 <= min_delay <= 0x8000_0000_0000_0000,
                0 <= ratio_ppm <= 0x1_0000_0000,
        ;
    }
    let floor: i128 = min_delay as i128 * ratio_ppm as i128 / 1_000_000;
    if floor > LEAST_FLOOR_PS as i128 {
        floor
    } else {
        LEAST_FLOOR_PS as i128
    }
}

fn weight(delay: i64, min_delay: i64, floor: i128) -> (w: u64)
    requires
        1000 <= floor <= 0x100_0000_0000_0000_0000_0000,
    ensures
        w == weight_of(delay as int, min_delay as int, floor as int),
        LEAST_WEIGHT <= w <= FULL_WEIGHT,
{
    let excess: i128 = if delay > min_delay {
        delay as i128 - min_delay as i128 + floor
    } else {
        floor
    };
    proof {
        lemma_weight_bounds(delay as int, min_delay as int, floor as int);
        assert(full_range() == 0x1_0000_0000_0000_0000_0000_0000_0000_0000_0000_0000_0000_0000_0000_0000_0000_0000int);
        let e = excess as int;
        let f = floor as int;
        assert(0 < f * f <= e * e) by (nonlinear_arith)
            requires
                0 < f <= e,
        ;
        assert(e * e <= 0x200_0000_0000_0000_0000_0000 * 0x200_0000_0000_0000_0000_0000)
            by (nonlinear_arith)
            requires
                0 < e <= 0x200_0000_0000_0000_0000_0000,
        ;
        let ff = f * f;
        let ee = e * e;
        assert(ff * FULL_WEIGHT / ee <= FULL_WEIGHT) by (nonlinear_arith)
            requires
                0 < ff <= ee,
                FULL_WEIGHT >= 0,
        ;
    }
    let square: Wide = Wide::product(floor as u128, floor as u128).times(FULL_WEIGHT as u128);
    let under: Wide = Wide::product(excess as u128, excess as u128);
    let w: u128 = quotient_up_to(square, under, FULL_WEIGHT as u128);
    if w > LEAST_WEIGHT as u128 {
        w as u64
    } else {
        LEAST_WEIGHT
    }
}

pub(crate) proof fn lemma_weight_bounds(delay: int, min_delay: int, floor: int)
    requires
        floor >= 1000,
    ensures
        LEAST_WEIGHT <= weight_of(delay, min_delay, floor) <= FULL_WEIGHT,
{
    let e = if delay > min_delay {
        delay - min_delay + floor
    } else {
        floor
    };
    assert(0 < floor * floor <= e * e) by (nonlinear_arith)
        requires
            0 < floor <= e,
    ;
    let ff = floor * floor;
    let ee = e * e;
    assert(ff * FULL_WEIGHT / ee <= FULL_WEIGHT) by (nonlinear_arith)
        requires
            0 < ff <= ee,
            FULL_WEIGHT >= 0,
    ;
}

fn held_offset(x: i128) -> (held: i128)
    ensures
        held == within(x as int, OFFSET_LIMIT as int),
        -OFFSET_LIMIT <= held <= OFFSET_LIMIT,
{
    if x > OFFSET_LIMIT {
        OFFSET_LIMIT
    } else if x < -OFFSET_LIMIT {
        -OFFSET_LIMIT
    } else {
        x
    }
}

fn share_left(age: u64, halflife: u64) -> (share: u64)
    ensures
        share == share_at(age as int, halflife as nat),
        share <= FULL_WEIGHT,
        age == 0 ==> share == FULL_WEIGHT,
{
    proof {
        lemma_share_bounds(age as int, halflife as nat);
    }
    if halflife == 0 {
        return FULL_WEIGHT;
    }
    faded(age, halflife)
}

pub(crate) proof fn lemma_share_bounds(age: int, halflife: nat)
    requires
        age >= 0,
    ensures
        0 <= share_at(age, halflife) <= FULL_WEIGHT,
        age == 0 ==> share_at(age, halflife) == FULL_WEIGHT,
{
    if halflife > 0 {
        lemma_half_to_bounds(age as nat * (STEPS as nat) / halflife, STEP_BITS as nat);
        if age == 0 {
            each_half_life_halves(0, halflife);
            vstd::arithmetic::power2::lemma2_to64();
            assert(0 * halflife == 0);
        }
    }
}

pub(crate) proof fn lemma_youngest(rows: Seq<Row>, now: u64)
    requires
        rows.len() > 0,
    ensures
        0 <= youngest(rows, now) <= u64::MAX,
        forall|i: int|
            0 <= i < rows.len() ==> youngest(rows, now) <= age_of(now, (#[trigger] rows[i]).t),
        exists|i: int|
            0 <= i < rows.len() && youngest(rows, now) == age_of(now, (#[trigger] rows[i]).t),
    decreases rows.len(),
{
    let n = rows.len() as int;
    assert(rows.last() == rows[n - 1]);
    if n > 1 {
        let fewer = rows.drop_last();
        lemma_youngest(fewer, now);
        assert forall|i: int| 0 <= i < n implies youngest(rows, now) <= age_of(
            now,
            (#[trigger] rows[i]).t,
        ) by {
            if i < n - 1 {
                assert(fewer[i] == rows[i]);
            }
        }
        let k = choose|k: int|
            0 <= k < fewer.len() && youngest(fewer, now) == age_of(now, (#[trigger] fewer[k]).t);
        assert(rows[k] == fewer[k]);
    } else {
        assert(youngest(rows.drop_last(), now) == u64::MAX);
    }
}

fn youngest_of(rows: &[Row], now: u64) -> (young: u64)
    ensures
        young == youngest(rows@, now),
{
    let mut young: u64 = u64::MAX;
    let mut i: usize = 0;
    while i < rows.len()
        invariant
            i <= rows@.len(),
            young == youngest(rows@.take(i as int), now),
        decreases rows@.len() - i,
    {
        assert(rows@.take(i + 1).drop_last() =~= rows@.take(i as int));
        let t: u64 = rows[i].t;
        let own: u64 = if now > t { now - t } else { 0 };
        if own < young {
            young = own;
        }
        i = i + 1;
    }
    assert(rows@.take(i as int) =~= rows@);
    young
}

/// The rows that the offset is taken from have weight: the youngest of them has
/// not faded.
pub(crate) proof fn lemma_reweighted(
    rows: Seq<Row>,
    min_delay: int,
    floor: int,
    now: u64,
    halflife: u64,
    young: int,
)
    requires
        rows.len() <= MAX_ROWS,
        floor >= 1000,
        forall|i: int| 0 <= i < rows.len() ==> young <= age_of(now, (#[trigger] rows[i]).t),
    ensures
        ({
            let sharp = reweighted(rows, min_delay, floor, now, halflife, young);
            &&& 0 <= total_weight(sharp) <= rows.len() * (FULL_WEIGHT * FULL_WEIGHT)
            &&& (exists|i: int|
                0 <= i < rows.len() && young == age_of(now, (#[trigger] rows[i]).t))
                ==> total_weight(sharp) >= 1
            &&& forall|i: int|
                0 <= i < sharp.len() ==> (#[trigger] sharp[i]).w == weight_of(
                    rows[i].delay as int,
                    min_delay,
                    floor,
                ) * share_at(age_of(now, rows[i].t) - young, halflife as nat)
        }),
    decreases rows.len(),
{
    let sharp = reweighted(rows, min_delay, floor, now, halflife, young);
    if rows.len() > 0 {
        let fewer = rows.drop_last();
        let n = rows.len() as int;
        assert forall|i: int| 0 <= i < fewer.len() implies young <= age_of(
            now,
            (#[trigger] fewer[i]).t,
        ) by {
            assert(fewer[i] == rows[i]);
        }
        lemma_reweighted(fewer, min_delay, floor, now, halflife, young);
        let blunt = reweighted(fewer, min_delay, floor, now, halflife, young);
        assert(sharp.drop_last() =~= blunt);
        let r = rows[n - 1];
        let w = weight_of(r.delay as int, min_delay, floor);
        let f = share_at(age_of(now, r.t) - young, halflife as nat);
        lemma_weight_bounds(r.delay as int, min_delay, floor);
        lemma_share_bounds(age_of(now, r.t) - young, halflife as nat);
        assert(0 <= w * f <= FULL_WEIGHT * FULL_WEIGHT) by (nonlinear_arith)
            requires
                0 <= w <= FULL_WEIGHT,
                0 <= f <= FULL_WEIGHT,
        ;
        assert(f == FULL_WEIGHT ==> w * f >= 1) by (nonlinear_arith)
            requires
                w >= 1,
                FULL_WEIGHT >= 1,
        ;
        assert(sharp[n - 1].w == w * f);
        let full = (FULL_WEIGHT * FULL_WEIGHT) as int;
        assert((n - 1) * full + full == n * full) by (nonlinear_arith);
        assert forall|i: int| 0 <= i < sharp.len() implies (#[trigger] sharp[i]).w == weight_of(
            rows[i].delay as int,
            min_delay,
            floor,
        ) * share_at(age_of(now, rows[i].t) - young, halflife as nat) by {
            if i < n - 1 {
                assert(blunt[i] == sharp[i]);
                assert(fewer[i] == rows[i]);
            }
        }
        if exists|i: int| 0 <= i < rows.len() && young == age_of(now, (#[trigger] rows[i]).t) {
            let i = choose|i: int|
                0 <= i < rows.len() && young == age_of(now, (#[trigger] rows[i]).t);
            if i < n - 1 {
                assert(fewer[i] == rows[i]);
            }
        }
    }
}

fn sharpened(rows: &[Row], min_delay: i64, floor: i128, now: u64, halflife: u64) -> (sharp: Vec<Row>)
    requires
        rows@.len() > 0,
        rows_fit(rows@),
        1000 <= floor <= 0x100_0000_0000_0000_0000_0000,
    ensures
        sharp@ == reweighted(
            rows@,
            min_delay as int,
            floor as int,
            now,
            halflife,
            youngest(rows@, now),
        ),
        total_weight(sharp@) >= 1,
        rows_within(sharp@, MAX_ROWS * (FULL_WEIGHT * FULL_WEIGHT)),
{
    let young: u64 = youngest_of(rows, now);
    let mut sharp: Vec<Row> = Vec::new();
    let mut i: usize = 0;
    proof {
        lemma_youngest(rows@, now);
    }
    while i < rows.len()
        invariant
            i <= rows@.len() <= 0xF_FFFF,
            rows_fit(rows@),
            1000 <= floor <= 0x100_0000_0000_0000_0000_0000,
            forall|k: int| 0 <= k < rows@.len() ==> young <= age_of(now, (#[trigger] rows@[k]).t),
            sharp@ == reweighted(
                rows@.take(i as int),
                min_delay as int,
                floor as int,
                now,
                halflife,
                young as int,
            ),
        decreases rows@.len() - i,
    {
        let r: Row = rows[i];
        let age: u64 = if now > r.t { now - r.t } else { 0 };
        let base: u64 = weight(r.delay, min_delay, floor);
        assert(young <= age_of(now, rows@[i as int].t));
        let share: u64 = share_left(age - young, halflife);
        proof {
            assert(0 <= base * share <= 0x100_0000_0000 * 0x100_0000_0000) by (nonlinear_arith)
                requires
                    0 <= base <= 0x100_0000_0000,
                    0 <= share <= 0x100_0000_0000,
            ;
        }
        let w: u128 = base as u128 * share as u128;
        sharp.push(Row { t: r.t, offset: r.offset, delay: r.delay, w });
        i = i + 1;
        assert(sharp@ =~= reweighted(
            rows@.take(i as int),
            min_delay as int,
            floor as int,
            now,
            halflife,
            young as int,
        ));
    }
    assert(rows@.take(i as int) =~= rows@);
    proof {
        lemma_reweighted(rows@, min_delay as int, floor as int, now, halflife, young as int);
        let n = rows@.len() as int;
        let full = (FULL_WEIGHT * FULL_WEIGHT) as int;
        assert(n * full <= MAX_ROWS * full) by (nonlinear_arith)
            requires
                n <= MAX_ROWS,
                full >= 0,
        ;
        assert forall|k: int| 0 <= k < sharp@.len() implies -OFFSET_LIMIT <= (
        #[trigger] sharp@[k]).offset <= OFFSET_LIMIT by {
            assert(sharp@[k].offset == rows@[k].offset);
        }
    }
    sharp
}

fn floor_for_offset(rows: &[Row], min_delay: i64, config: &RegressConfig) -> (floor: i128)
    requires
        rows@.len() > 0,
    ensures
        floor == offset_floor(rows@, min_delay as int, *config),
        1000 <= floor <= 0x100_0000_0000_0000_0000_0000,
{
    if config.dispersion_k_milli == 0 {
        return floor_for(min_delay, config.offset_floor_ppm);
    }
    let mut all: Vec<i128> = Vec::new();
    let mut i: usize = 0;
    while i < rows.len()
        invariant
            i <= rows@.len(),
            all@ == delays(rows@.take(i as int)),
            forall|j: int| 0 <= j < all@.len() ==> i64::MIN <= #[trigger] all@[j] <= i64::MAX,
        decreases rows@.len() - i,
    {
        all.push(rows[i].delay as i128);
        i = i + 1;
        assert(all@ =~= delays(rows@.take(i as int)));
    }
    assert(rows@.take(i as int) =~= rows@);
    let mid: i128 = middle(all.as_slice());
    proof {
        let k = choose|k: int| 0 <= k < all@.len() && all@[k] == mid;
        assert(all@[k] == mid);
    }
    let over: i128 = mid - min_delay as i128;
    let floor: i128 = floor_for(min_delay, 100);
    if over <= 0 {
        proof {
            let k = config.dispersion_k_milli as int;
            assert(k * over <= 0) by (nonlinear_arith)
                requires
                    k >= 0,
                    over <= 0,
            ;
        }
        return floor;
    }
    proof {
        let k = config.dispersion_k_milli as int;
        assert(0 <= k * over <= 0x1_0000_0000 * 0x1_0000_0000_0000_0000) by (nonlinear_arith)
            requires
                0 <= k <= 0x1_0000_0000,
                0 <= over <= 0x1_0000_0000_0000_0000,
        ;
    }
    let spread: i128 = config.dispersion_k_milli as i128 * over / 1000;
    if spread > floor {
        spread
    } else {
        floor
    }
}

/// The standard deviation of the residuals of a fit.
fn residual_sd(rows: &[Row], line: &Fit) -> (sd: u64)
    requires
        total_weight(rows@) >= 1,
        rows_fit(rows@),
        fit_holds(*line),
    ensures
        is_root(
            (square_sum(rows@, *line) * rows@.len()) as nat,
            (total_weight(rows@) * if rows@.len() > 3 {
                rows@.len() - 2
            } else {
                1
            }) as nat,
            sd,
        ),
        square_sum(rows@, *line) >= 0,
{
    let ghost f = |r: Row| r.w * (residual(r, *line) * residual(r, *line));
    let ghost ww = |r: Row| r.w as int;
    let mut squares: Wide = Wide::new(0);
    let mut weights: u128 = 0;
    let mut i: usize = 0;
    proof {
        assert(full_range() == 0x1_0000_0000_0000_0000_0000_0000_0000_0000_0000_0000_0000_0000_0000_0000_0000_0000int);
    }
    while i < rows.len()
        invariant
            i <= rows@.len() <= 0xF_FFFF,
            rows_fit(rows@),
            fit_holds(*line),
            f == (|r: Row| r.w * (residual(r, *line) * residual(r, *line))),
            ww == (|r: Row| r.w as int),
            squares.value() == sum_of(rows@.take(i as int), f),
            weights == sum_of(rows@.take(i as int), ww),
            weights <= 0xF_FFFF * 0x100_0000_0000,
            squares.value() <= weights
                * 0x1_0000_0000_0000_0000_0000_0000_0000_0000_0000_0000_0000int,
            full_range() == 0x1_0000_0000_0000_0000_0000_0000_0000_0000_0000_0000_0000_0000_0000_0000_0000_0000int,
        decreases rows@.len() - i,
    {
        let r: i128 = residual_of(&rows[i], line);
        let m: u128 = magnitude(r);
        let w: u128 = rows[i].w;
        proof {
            lemma_sum_step(rows@, i as int, f);
            lemma_sum_step(rows@, i as int, ww);
            lemma_part_weight(rows@, i + 1);
            lemma_product_sign(r as int, r as int);
            let p = m * m;
            assert(0 <= p <= 0x100_0000_0000_0000_0000_0000 * 0x100_0000_0000_0000_0000_0000)
                by (nonlinear_arith)
                requires
                    p == m * m,
                    0 <= m <= 0x100_0000_0000_0000_0000_0000,
            ;
            assert(0 <= p * w <= w
                * 0x1_0000_0000_0000_0000_0000_0000_0000_0000_0000_0000_0000int) by (nonlinear_arith)
                requires
                    0 <= p <= 0x1_0000_0000_0000_0000_0000_0000_0000_0000_0000_0000_0000int,
                    0 <= w,
            ;
            assert(p * w == w * p) by (nonlinear_arith);
        }
        squares = squares.plus(Wide::product(m, m).times(w));
        weights = weights + w;
        i = i + 1;
    }
    assert(rows@.take(i as int) =~= rows@);
    let n: usize = rows.len();
    let freedom: u128 = if n > 3 { (n - 2) as u128 } else { 1 };
    proof {
        let w = weights as int;
        let v = freedom as int;
        assert(0 < w * v <= 0xF_FFFF * 0x100_0000_0000 * 0xF_FFFF) by (nonlinear_arith)
            requires
                0 < w <= 0xF_FFFF * 0x100_0000_0000,
                0 < v <= 0xF_FFFF,
        ;
        let q = squares.value() as int;
        assert(0 <= q * n <= (0xF_FFFF
            * 0x100_0000_0000_0000_0000_0000_0000_0000_0000_0000_0000_0000_0000_0000int) * 0xF_FFFF)
            by (nonlinear_arith)
            requires
                0 <= q <= 0xF_FFFF
                    * 0x100_0000_0000_0000_0000_0000_0000_0000_0000_0000_0000_0000_0000_0000int,
                0 <= n <= 0xF_FFFF,
        ;
    }
    root_of_quotient(squares.times(n as u128), weights * freedom)
}

impl SampleRegister {
    /// The time that a sample stands for, doubled.
    fn stretch(&self, i: usize) -> (own: u64)
        requires
            self.wf(),
            i < self@.len(),
        ensures
            own == stands_for(self@, i as int),
    {
        let n: usize = self.len();
        let from: u64 = if i > 0 { self.get(i - 1).t } else { self.get(i).t };
        let to: u64 = if i + 1 < n { self.get(i + 1).t } else { self.get(i).t };
        if to > from {
            to - from
        } else {
            0
        }
    }

    /// The rows of the window.
    fn rows(&self, min: i64, config: &RegressConfig) -> (rows: Vec<Row>)
        requires
            self.wf(),
            0 < self@.len() <= MAX_ROWS,
            min == least_delay(self@),
        ensures
            rows@ == rows_of(self@, *config),
            rows_fit(rows@),
            total_weight(rows@) >= 1,
    {
        let n: usize = self.len();
        let mut sum: u128 = 0;
        if config.density {
            let mut k: usize = 0;
            while k < n
                invariant
                    self.wf(),
                    k <= n == self@.len(),
                    n <= 0xF_FFFF,
                    sum == time_sum(self@, k as nat),
                    sum <= k * 0x1_0000_0000_0000_0000,
                decreases n - k,
            {
                let own: u64 = self.stretch(k);
                sum = sum + own as u128;
                k = k + 1;
            }
        }
        let floor: i128 = floor_for(min, config.floor_ppm);
        let mut rows: Vec<Row> = Vec::new();
        let mut i: usize = 0;
        while i < n
            invariant
                self.wf(),
                i <= n == self@.len(),
                n <= 0xF_FFFF,
                1000 <= floor <= 0x100_0000_0000_0000_0000_0000,
                floor == weight_floor(min as int, config.floor_ppm as int),
                min == least_delay(self@),
                config.density ==> sum == time_sum(self@, n as nat),
                rows@ == rows_of(self@, *config).take(i as int),
            decreases n - i,
        {
            let s: Sample = self.get(i);
            let base: u64 = weight(s.delay, min, floor);
            let w: u128 = if config.density && sum > 0 {
                let own: u64 = self.stretch(i);
                proof {
                    let b = base as int;
                    let o = own as int;
                    let m = n as int;
                    assert(0 <= b * o <= 0x100_0000_0000 * 0xffff_ffff_ffff_ffff)
                        by (nonlinear_arith)
                        requires
                            0 <= b <= 0x100_0000_0000,
                            0 <= o <= 0xffff_ffff_ffff_ffff,
                    ;
                    let p = b * o;
                    assert(0 <= p * m <= (0x100_0000_0000 * 0xffff_ffff_ffff_ffff) * 0xF_FFFF)
                        by (nonlinear_arith)
                        requires
                            0 <= p <= 0x100_0000_0000 * 0xffff_ffff_ffff_ffff,
                            0 <= m <= 0xF_FFFF,
                    ;
                }
                base as u128 * own as u128 * n as u128 / sum
            } else {
                base as u128
            };
            proof {
                lemma_row_weight(self@, i as int, min as int, *config);
            }
            rows.push(Row { t: s.t, offset: held_offset(s.offset), delay: s.delay, w });
            i = i + 1;
            assert(rows@ =~= rows_of(self@, *config).take(i as int));
        }
        assert(rows_of(self@, *config).take(i as int) =~= rows_of(self@, *config));
        proof {
            lemma_rows_fit(self@, *config);
        }
        rows
    }

    /// Weighted linear regression of offset against time, first without the
    /// history that a regime change made stale, then without spikes, and
    /// extrapolated to `now`. `None` with fewer than three samples.
    pub fn regress(&self, config: &RegressConfig, now: u64) -> (est: Option<RegressEstimate>)
        requires
            self.wf(),
            self@.len() <= MAX_ROWS,
        ensures
            match est {
                None => self@.len() < 3,
                Some(e) => self@.len() >= 3 && is_regression(self@, *config, now, e)
                    && -OFFSET_LIMIT <= e.offset <= OFFSET_LIMIT,
            },
    {
        let n: usize = self.len();
        if n < 3 {
            return None;
        }
        let min: i64 = match self.min_delay() {
            Some(m) => m,
            None => 0,
        };
        proof {
            assert(is_min_delay(self@, Some(min)));
            lemma_one_least_delay(self@, min, least_delay(self@));
        }
        let rows: Vec<Row> = self.rows(min, config);
        let first_line: Fit = fit(rows.as_slice());
        let (regime, regime_line): (Vec<Row>, Fit) = drop_stale(rows, first_line);
        let (used, line): (Vec<Row>, Fit) = drop_spikes(regime, regime_line);
        let count: usize = used.len();
        let first: u64 = used[0].t;
        let last: u64 = used[count - 1].t;
        let span: u64 = if last > first { last - first } else { 0 };
        let (t0, a): (u64, i128) = if config.offset_floor_ppm != config.floor_ppm
            || config.dispersion_k_milli > 0 || config.halflife > 0 {
            let floor: i128 = floor_for_offset(used.as_slice(), min, config);
            let sharp: Vec<Row> = sharpened(used.as_slice(), min, floor, now, config.halflife);
            means(sharp.as_slice())
        } else {
            (line.t0, line.a)
        };
        proof {
            lemma_residual_fits(Row { t: now, offset: 0, delay: 0, w: 0 }, Fit { t0, ..line });
        }
        let ahead: i128 = a + drift(line.b, now as i128 - t0 as i128);
        let weight: u128 = weigh(used.as_slice());
        let offset_sd: u64 = if weight == 0 { 0 } else { residual_sd(used.as_slice(), &line) };
        Some(
            RegressEstimate {
                offset: held_offset(ahead),
                freq_ppq: if count >= FREQ_MIN_SAMPLES && span >= FREQ_MIN_SPAN_NS {
                    Some(line.b)
                } else {
                    None
                },
                offset_sd,
                n_used: count,
                span,
            },
        )
    }
}

/// The weight of a row, as a number.
pub open spec fn row_weight(
    window: Seq<Sample>,
    i: int,
    min_delay: int,
    config: RegressConfig,
) -> int {
    let w = weight_of(
        window[i].delay as int,
        min_delay,
        weight_floor(min_delay, config.floor_ppm as int),
    );
    if config.density {
        by_density(
            w,
            stands_for(window, i),
            time_sum(window, window.len()),
            window.len() as int,
        )
    } else {
        w
    }
}

proof fn lemma_floor(min_delay: int, ratio_ppm: int)
    ensures
        weight_floor(min_delay, ratio_ppm) >= 1000,
{
}

/// A row's weight is no larger than its share of the time allows.
proof fn lemma_row_weight(window: Seq<Sample>, i: int, min_delay: int, config: RegressConfig)
    requires
        0 <= i < window.len() <= MAX_ROWS,
    ensures
        row_of(window, i, min_delay, config).w == row_weight(window, i, min_delay, config),
        row_weight(window, i, min_delay, config) >= 0,
        ({
            let sum = time_sum(window, window.len());
            let n = window.len() as int;
            let own = stands_for(window, i);
            let w = row_weight(window, i, min_delay, config);
            if config.density && sum > 0 {
                w * sum <= FULL_WEIGHT * (own * n) && (own * n >= sum ==> w >= 1)
            } else {
                LEAST_WEIGHT <= w <= FULL_WEIGHT
            }
        }),
{
    let sum = time_sum(window, window.len());
    let n = window.len() as int;
    let own = stands_for(window, i);
    let floor = weight_floor(min_delay, config.floor_ppm as int);
    let b = weight_of(window[i].delay as int, min_delay, floor);
    lemma_floor(min_delay, config.floor_ppm as int);
    lemma_weight_bounds(window[i].delay as int, min_delay, floor);
    if config.density && sum > 0 {
        let w = b * own * n / sum;
        let k = own * n;
        assert(0 <= k <= 0x1_0000_0000_0000_0000 * 0xF_FFFF) by (nonlinear_arith)
            requires
                k == own * n,
                0 <= own <= 0x1_0000_0000_0000_0000,
                0 <= n <= 0xF_FFFF,
        ;
        assert(b * own * n == b * k) by (nonlinear_arith)
            requires
                k == own * n,
        ;
        let x = b * k;
        assert(0 <= x <= FULL_WEIGHT * k) by (nonlinear_arith)
            requires
                x == b * k,
                0 <= b <= FULL_WEIGHT,
                k >= 0,
        ;
        assert(0 <= w && w * sum <= x) by (nonlinear_arith)
            requires
                w == x / sum,
                x >= 0,
                sum > 0,
        ;
        if k >= sum {
            assert(w >= 1) by (nonlinear_arith)
                requires
                    w == x / sum,
                    x == b * k,
                    b >= 1,
                    k >= sum,
                    sum > 0,
            ;
        }
        assert(w <= x) by (nonlinear_arith)
            requires
                0 <= w,
                w * sum <= x,
                sum >= 1,
        ;
        assert(FULL_WEIGHT * k <= 0x100_0000_0000 * (0x1_0000_0000_0000_0000 * 0xF_FFFF));
    }
}

/// The first rows weigh no more than the time they stand for allows.
proof fn lemma_rows_weight(window: Seq<Sample>, config: RegressConfig, k: nat)
    requires
        k <= window.len() <= MAX_ROWS,
    ensures
        ({
            let sum = time_sum(window, window.len());
            let n = window.len() as int;
            let t = total_weight(rows_of(window, config).take(k as int));
            if config.density && sum > 0 {
                t * sum <= FULL_WEIGHT * (time_sum(window, k) * n)
            } else {
                k <= t <= FULL_WEIGHT * k
            }
        }),
    decreases k,
{
    let sum = time_sum(window, window.len());
    let n = window.len() as int;
    let rows = rows_of(window, config);
    if k == 0 {
        assert(0 * sum == 0 && 0 * n == 0);
    } else {
        let j = (k - 1) as nat;
        let min = least_delay(window) as int;
        lemma_rows_weight(window, config, j);
        lemma_sum_step(rows, j as int, |r: Row| r.w as int);
        lemma_row_weight(window, j as int, min, config);
        assert(rows[j as int] == row_of(window, j as int, min, config));
        let t = total_weight(rows.take(j as int));
        let w = rows[j as int].w as int;
        let own = stands_for(window, j as int);
        let before = time_sum(window, j);
        assert((t + w) * sum == t * sum + w * sum) by (nonlinear_arith);
        assert((before + own) * n == before * n + own * n) by (nonlinear_arith);
    }
}

/// One sample at least stands for the mean time or more.
proof fn lemma_some_share(window: Seq<Sample>, k: nat)
    requires
        k <= window.len(),
        time_sum(window, k) > 0,
    ensures
        exists|i: int| 0 <= i < k && #[trigger] stands_for(window, i) * k >= time_sum(window, k),
    decreases k,
{
    let j = (k - 1) as nat;
    let own = stands_for(window, j as int);
    let before = time_sum(window, j);
    if before > 0 {
        lemma_some_share(window, j);
        let i = choose|i: int|
            0 <= i < j && #[trigger] stands_for(window, i) * j >= time_sum(window, j);
        let other = stands_for(window, i);
        if other >= own {
            assert(other * k >= before + own) by (nonlinear_arith)
                requires
                    other * j >= before,
                    other >= own,
                    k == j + 1,
            ;
            assert(stands_for(window, i) * k >= time_sum(window, k));
        } else {
            assert(own * k >= before + own) by (nonlinear_arith)
                requires
                    other * j >= before,
                    own > other,
                    j >= 0,
                    k == j + 1,
            ;
            assert(stands_for(window, j as int) * k >= time_sum(window, k));
        }
    } else {
        lemma_time_sum(window, j);
        assert(own * k >= own) by (nonlinear_arith)
            requires
                own >= 0,
                k >= 1,
        ;
        assert(stands_for(window, j as int) * k >= time_sum(window, k));
    }
}

proof fn lemma_time_sum(window: Seq<Sample>, k: nat)
    ensures
        time_sum(window, k) >= 0,
    decreases k,
{
    if k > 0 {
        lemma_time_sum(window, (k - 1) as nat);
    }
}

/// The rows of a window are ones that a line can be fitted through.
pub(crate) proof fn lemma_rows_fit(window: Seq<Sample>, config: RegressConfig)
    requires
        0 < window.len() <= MAX_ROWS,
    ensures
        rows_fit(rows_of(window, config)),
        total_weight(rows_of(window, config)) >= 1,
{
    let n = window.len() as int;
    let rows = rows_of(window, config);
    let sum = time_sum(window, window.len());
    let min = least_delay(window) as int;
    lemma_rows_weight(window, config, window.len());
    assert(rows.take(n) =~= rows);
    let t = total_weight(rows);
    if config.density && sum > 0 {
        assert(t <= FULL_WEIGHT * n) by (nonlinear_arith)
            requires
                t * sum <= FULL_WEIGHT * (sum * n),
                sum > 0,
        ;
        lemma_some_share(window, window.len());
        let i = choose|i: int| 0 <= i < n && #[trigger] stands_for(window, i) * n >= sum;
        lemma_row_weight(window, i, min, config);
        assert(rows[i] == row_of(window, i, min, config));
        lemma_part_weight(rows, i);
        lemma_part_weight(rows, i + 1);
        lemma_sum_step(rows, i, |r: Row| r.w as int);
    }
    assert(FULL_WEIGHT * n <= MAX_ROWS * FULL_WEIGHT) by (nonlinear_arith)
        requires
            n <= MAX_ROWS,
            FULL_WEIGHT >= 0,
    ;
}

pub(crate) proof fn lemma_one_least_delay(window: Seq<Sample>, a: i64, b: i64)
    requires
        is_min_delay(window, Some(a)),
        is_min_delay(window, Some(b)),
    ensures
        a == b,
{
    let i = choose|i: int| 0 <= i < window.len() && (#[trigger] window[i]).delay == a;
    let j = choose|j: int| 0 <= j < window.len() && (#[trigger] window[j]).delay == b;
    assert(window[i].delay == a && window[j].delay == b);
}

} // verus!
