//! What a fitted line is: the one that leaves least, in squares, of what was measured;
//! and what an estimate makes of it.

use vstd::prelude::*;

use crate::arith::toward_zero;
use crate::discipline::{FREQ_LIMIT, OFFSET_LIMIT};
use crate::filter::{is_best, Sample};
use crate::ranking::median;
use crate::regression::{
    age_of, current_regime, default_weighting, delays, despiked, fit_of, is_regression,
    least_delay, mean_offset, mean_time, offset_floor, offset_rows, ratio_set, regime_drop,
    residual, rows_of, runs, signs, square_sum, stands_for, sum_of, total_weight, used_fit,
    weighs_anew, weight_floor, weight_of, well_mixed, youngest, Fit, RegressConfig,
    RegressEstimate, Row,
};
use crate::regression_laws::waiting_changes_no_weight;

verus! {

proof fn lemma_near(x: int, d: int)
    requires
        d > 0,
    ensures
        -d < toward_zero(x, d) * d - x < d,
        x >= 0 ==> toward_zero(x, d) >= 0,
        x <= 0 ==> toward_zero(x, d) <= 0,
{
    crate::slew::lemma_toward_zero(x, d);
}

/// The line passes through the middle of the samples: its origin is the weighted mean of
/// their times, and its height there the weighted mean of their offsets, each to within
/// one of its units.
pub proof fn a_line_passes_through_the_middle(rows: Seq<Row>)
    requires
        rows.len() > 0,
        total_weight(rows) >= 1,
    ensures
        ({
            let w = total_weight(rows);
            let times = sum_of(rows, |r: Row| r.w * (r.t - rows[0].t));
            let offsets = sum_of(rows, |r: Row| r.w * r.offset);
            &&& -w < (mean_time(rows) - rows[0].t) * w - times < w
            &&& -w < mean_offset(rows) * w - offsets < w
            &&& offsets >= 0 ==> mean_offset(rows) >= 0
            &&& offsets <= 0 ==> mean_offset(rows) <= 0
        }),
{
    let base = rows[0].t as int;
    let w = total_weight(rows);
    lemma_near(sum_of(rows, |r: Row| r.w * (r.t - base)), w);
    lemma_near(sum_of(rows, |r: Row| r.w * r.offset), w);
}

/// The slope is the one of least squares: the weighted products of time and offset about
/// the middle are the slope, in parts of 10^15, times the weighted squares of time, to
/// within one part, unless it is steeper than is held; offsets that rise make it rise,
/// and offsets that fall make it fall. Samples that span less than a microsecond have
/// none.
pub proof fn a_slope_is_of_least_squares(rows: Seq<Row>, t0: int, a: int)
    ensures
        ({
            let b = crate::regression::slope(rows, t0, a);
            let xx = sum_of(rows, |r: Row| r.w * ((r.t - t0) * (r.t - t0)));
            let xy = sum_of(rows, |r: Row| r.w * ((r.t - t0) * (r.offset - a)));
            &&& -FREQ_LIMIT <= b <= FREQ_LIMIT
            &&& xx <= 1_000_000 * 0x100_0000_0000 ==> b == 0
            &&& xx > 1_000_000 * 0x100_0000_0000 && -FREQ_LIMIT < b < FREQ_LIMIT ==> -xx < b * xx
                - xy * 1_000_000_000_000 < xx
            &&& xx > 1_000_000 * 0x100_0000_0000 && xy >= 0 ==> b >= 0
            &&& xx > 1_000_000 * 0x100_0000_0000 && xy <= 0 ==> b <= 0
        }),
{
    let xx = sum_of(rows, |r: Row| r.w * ((r.t - t0) * (r.t - t0)));
    let xy = sum_of(rows, |r: Row| r.w * ((r.t - t0) * (r.offset - a)));
    if xx > 1_000_000 * 0x100_0000_0000 {
        lemma_near(xy * 1_000_000_000_000, xx);
    }
}

/// What a sample weighs: everything, 2^40, where its delay is the shortest; and less,
/// with the square of how many times over the floor its delay exceeds that, rounded
/// down, but a millionth at least. Less delay never weighs less.
pub proof fn queueing_costs_weight(delay: int, longer: int, min: int, floor: int)
    requires
        floor >= 1000,
        min <= delay <= longer,
    ensures
        weight_of(min, min, floor) == 0x100_0000_0000,
        1_099_511 <= weight_of(longer, min, floor) <= weight_of(delay, min, floor)
            <= 0x100_0000_0000,
        weight_of(delay, min, floor) > 1_099_511 ==> ({
            let over = delay - min + floor;
            let left = floor * floor * 0x100_0000_0000 - weight_of(delay, min, floor) * (over
                * over);
            0 <= left < over * over
        }),
{
    let over = delay - min + floor;
    let more = longer - min + floor;
    let ff = floor * floor;
    let d = over * over;
    let e = more * more;
    assert(0 < ff <= d <= e) by (nonlinear_arith)
        requires
            ff == floor * floor,
            d == over * over,
            e == more * more,
            0 < floor <= over <= more,
    ;
    let x = ff * 0x100_0000_0000;
    assert(x / e <= x / d) by (nonlinear_arith)
        requires
            0 < d <= e,
            x >= 0,
    ;
    assert(x / d <= 0x100_0000_0000) by (nonlinear_arith)
        requires
            x == ff * 0x100_0000_0000,
            0 < ff <= d,
    ;
    vstd::arithmetic::div_mod::lemma_fundamental_div_mod(x, d);
    assert(d * (x / d) == (x / d) * d) by (nonlinear_arith);
    vstd::arithmetic::div_mod::lemma_div_multiples_vanish(0x100_0000_0000, ff);
    if delay == min {
        assert(over == floor);
    }
    if longer == min {
        assert(more == floor);
    }
}

/// The floor under an excess delay: so many millionths of the shortest delay, and a
/// nanosecond at least.
pub proof fn the_floor_is_a_share_of_the_delay(min: int, ppm: int)
    requires
        ppm >= 0,
    ensures
        weight_floor(min, ppm) >= 1000,
        min > 0 && weight_floor(min, ppm) > 1000 ==> 0 <= min * ppm - weight_floor(min, ppm)
            * 1_000_000 < 1_000_000,
        min > 0 && min * ppm >= 1_001_000_000 ==> weight_floor(min, ppm) > 1000,
{
    if min > 0 {
        assert(min * ppm >= 0) by (nonlinear_arith)
            requires
                min > 0,
                ppm >= 0,
        ;
    }
}

/// Between two moments an estimate moves as its frequency says: once all samples lie in
/// the past, the offset at the later one is that at the earlier and what the frequency
/// makes of the time between, to within two picoseconds; the frequency, the dispersion
/// and the samples used are the same.
pub proof fn an_estimate_moves_with_its_frequency(
    window: Seq<Sample>,
    config: RegressConfig,
    now: u64,
    later: u64,
    first: RegressEstimate,
    second: RegressEstimate,
)
    requires
        is_regression(window, config, now, first),
        is_regression(window, config, later, second),
        now <= later,
        used_fit(window, config).0.len() >= 4,
        forall|i: int|
            0 <= i < used_fit(window, config).0.len() ==> (#[trigger] used_fit(
                window,
                config,
            ).0[i]).t <= now,
        first.span >= 8_000_000_000,
        -OFFSET_LIMIT < first.offset < OFFSET_LIMIT,
        -OFFSET_LIMIT < second.offset < OFFSET_LIMIT,
    ensures
        first.freq_ppq is Some,
        second.freq_ppq == first.freq_ppq,
        second.n_used == first.n_used,
        second.span == first.span,
        ({
            let moved = second.offset - first.offset;
            let dt = later - now;
            -2_000_000_000_000 < moved * 1_000_000_000_000 - first.freq_ppq->Some_0 * dt
                < 2_000_000_000_000
        }),
{
    let (used, line) = used_fit(window, config);
    let min = least_delay(window) as int;
    waiting_changes_no_weight(used, min, config, now, later);
    let sharp = offset_rows(used, min, config, now);
    let b = line.b as int;
    let t0 = if weighs_anew(config) {
        mean_time(sharp)
    } else {
        line.t0 as int
    };
    lemma_near(b * (now - t0), 1_000_000_000_000);
    lemma_near(b * (later - t0), 1_000_000_000_000);
    assert(b * (later - t0) - b * (now - t0) == b * (later - now)) by (nonlinear_arith);
}

/// When a frequency is told: with four samples used that span eight seconds, and with no
/// fewer and no less; and the span is from the oldest to the newest that is used.
pub proof fn a_frequency_takes_four_samples_and_eight_seconds(
    window: Seq<Sample>,
    config: RegressConfig,
    now: u64,
    est: RegressEstimate,
)
    requires
        is_regression(window, config, now, est),
        used_fit(window, config).0.len() >= 1,
    ensures
        est.freq_ppq is Some <==> est.n_used >= 4 && est.span >= 8_000_000_000,
        est.n_used == used_fit(window, config).0.len(),
        ({
            let used = used_fit(window, config).0;
            used.last().t >= used[0].t ==> est.span == used.last().t - used[0].t
        }),
        est.freq_ppq is Some ==> est.freq_ppq == Some(used_fit(window, config).1.b),
{
}

/// How far an estimate scatters: the square of its deviation is the weighted mean of the
/// squares of what is left, scaled for the two parameters that were fitted, rounded
/// down.
pub proof fn a_deviation_is_the_root_of_the_mean_square(
    window: Seq<Sample>,
    config: RegressConfig,
    now: u64,
    est: RegressEstimate,
)
    requires
        is_regression(window, config, now, est),
        total_weight(used_fit(window, config).0) > 0,
        square_sum(used_fit(window, config).0, used_fit(window, config).1) >= 0,
    ensures
        ({
            let (used, line) = used_fit(window, config);
            let n = used.len() as int;
            let free = if n > 3 {
                n - 2
            } else {
                1
            };
            let w = total_weight(used);
            let s = est.offset_sd as int;
            let squares = square_sum(used, line) * n;
            &&& s * s * (w * free) <= squares
            &&& s < u64::MAX ==> squares < (s + 1) * (s + 1) * (w * free)
        }),
{
    let (used, line) = used_fit(window, config);
    let n = used.len() as int;
    let free = if n > 3 {
        n - 2
    } else {
        1
    };
    let w = total_weight(used);
    assert(w * free >= 0) by (nonlinear_arith)
        requires
            w >= 0,
            free >= 0,
    ;
    let q = square_sum(used, line);
    assert(q * n >= 0) by (nonlinear_arith)
        requires
            q >= 0,
            n >= 0,
    ;
}

/// Weighted by the time that it stands for, a sample counts as before where it stands for
/// the mean of all, twice as much where it stands for twice that, and for nothing where
/// it stands for no time; between its neighbours it stands for half the time from the
/// one before it to the one after.
pub proof fn a_sample_counts_for_its_time(weight: int, own: int, sum: int, n: int)
    requires
        weight >= 0,
        own >= 0,
        sum > 0,
        n > 0,
    ensures
        ({
            let w = crate::regression::by_density(weight, own, sum, n);
            &&& 0 <= weight * own * n - w * sum < sum
            &&& own == 0 ==> w == 0
            &&& own * n == sum ==> w == weight
        }),
{
    let x = weight * own * n;
    assert(x == weight * (own * n)) by (nonlinear_arith)
        requires
            x == weight * own * n,
    ;
    assert(x >= 0) by (nonlinear_arith)
        requires
            x == weight * (own * n),
            weight >= 0,
            own >= 0,
            n > 0,
    ;
    vstd::arithmetic::div_mod::lemma_fundamental_div_mod(x, sum);
    assert(sum * (x / sum) == (x / sum) * sum) by (nonlinear_arith);
    if own == 0 {
        assert(x == 0) by (nonlinear_arith)
            requires
                x == weight * own * n,
                own == 0,
        ;
        assert(0int / sum == 0) by (nonlinear_arith)
            requires
                sum > 0,
        ;
    }
    if own * n == sum {
        vstd::arithmetic::div_mod::lemma_div_multiples_vanish(weight, sum);
        assert(sum * weight == weight * sum) by (nonlinear_arith);
    }
}

/// The best single reading is the one with the shortest delay of the newest eight, and of
/// equals the oldest.
pub proof fn the_best_reading_queued_least(window: Seq<Sample>, k: int, j: int)
    requires
        is_best(window, k),
        window.len() - 8 <= j < window.len(),
        0 <= j,
    ensures
        0 <= k < window.len(),
        window.len() - 8 <= k,
        window[k].delay <= window[j].delay,
        window[k].delay == window[j].delay ==> k <= j,
{
}

/// The floor under the excess delay is an eighth of the delay to start with, and for the
/// offset a thirty-second; neither can be set below a ten-thousandth, and anything above is
/// set as asked for.
pub proof fn the_floors_to_start_with(ratio_ppm: u32)
    ensures
        default_weighting().floor_ppm * 8 == 1_000_000,
        default_weighting().offset_floor_ppm * 32 == 1_000_000,
        default_weighting().halflife == 0 && default_weighting().dispersion_k_milli == 0,
        !default_weighting().density,
        ratio_ppm * 10_000 >= 1_000_000 ==> ratio_set(ratio_ppm) == ratio_ppm,
        ratio_ppm * 10_000 <= 1_000_000 ==> ratio_set(ratio_ppm) * 10_000 == 1_000_000,
{
}

/// A sample stands for the time from the one before it to the one after it; the first has
/// none before it and the last none after.
pub proof fn a_sample_stands_for_the_time_around_it(window: Seq<Sample>, i: int)
    requires
        0 <= i < window.len(),
        i > 0 ==> window[i - 1].t <= window[i].t,
        i < window.len() - 1 ==> window[i].t <= window[i + 1].t,
    ensures
        0 < i < window.len() - 1 ==> stands_for(window, i) == window[i + 1].t - window[i - 1].t,
        0 == i < window.len() - 1 ==> stands_for(window, i) == window[1].t - window[0].t,
        0 < i == window.len() - 1 ==> stands_for(window, i) == window[i].t - window[i - 1].t,
        window.len() == 1 ==> stands_for(window, i) == 0,
{
}

/// Residuals are well mixed where their signs change often enough: there are as many runs of
/// one sign as changes, and one more, and a run is three rows long at most on average.
pub proof fn mixed_residuals_change_sign(rows: Seq<Row>, line: Fit, before: Seq<bool>, sign: bool)
    ensures
        well_mixed(rows, line) <==> rows.len() <= 3 * runs(signs(rows, line)),
        runs(Seq::empty()) == 0,
        before.len() == 0 ==> runs(before.push(sign)) == 1,
        before.len() > 0 && before.last() == sign ==> runs(before.push(sign)) == runs(before),
        before.len() > 0 && before.last() != sign ==> runs(before.push(sign)) == runs(before) + 1,
        signs(rows, line).len() == rows.len(),
        forall|i: int|
            0 <= i < rows.len() ==> (#[trigger] signs(rows, line)[i] <==> residual(rows[i], line)
                > 0),
{
    reveal_with_fuel(runs, 2);
    assert(before.push(sign).drop_last() =~= before);
    assert(before.len() > 0 ==> before.push(sign)[before.len() - 1] == before.last());
}

/// The start of a window is given up four times at most, a quarter each time and two rows at
/// least, and spikes are looked for in what is left.
pub proof fn history_is_given_up_four_times(window: Seq<Sample>, config: RegressConfig, n: int)
    ensures
        ({
            let rows = rows_of(window, config);
            let left = current_regime(rows, fit_of(rows), 4);
            used_fit(window, config) == despiked(left.0, left.1)
        }),
        n >= 8 ==> 4 * regime_drop(n) <= n < 4 * (regime_drop(n) + 1),
        0 <= n < 8 ==> regime_drop(n) == 2,
{
}

/// Ages count from the youngest row: none is younger than it, and one is as young.
pub proof fn ages_count_from_the_youngest(rows: Seq<Row>, now: u64)
    requires
        rows.len() > 0,
    ensures
        forall|i: int|
            0 <= i < rows.len() ==> youngest(rows, now) <= age_of(now, (#[trigger] rows[i]).t),
        exists|i: int|
            0 <= i < rows.len() && youngest(rows, now) == age_of(now, (#[trigger] rows[i]).t),
        forall|t: u64| t < now ==> #[trigger] age_of(now, t) == now - t,
        forall|t: u64| t >= now ==> #[trigger] age_of(now, t) == 0,
    decreases rows.len(),
{
    reveal_with_fuel(youngest, 2);
    let rest = rows.drop_last();
    if rest.len() > 0 {
        ages_count_from_the_youngest(rest, now);
        let k = choose|i: int|
            0 <= i < rest.len() && youngest(rest, now) == age_of(now, (#[trigger] rest[i]).t);
        assert(rows[k] == rest[k]);
        assert forall|i: int| 0 <= i < rows.len() implies youngest(rows, now) <= age_of(
            now,
            (#[trigger] rows[i]).t,
        ) by {
            if i < rest.len() {
                assert(rest[i] == rows[i]);
            }
        }
    }
    assert(rows[rows.len() - 1] == rows.last());
}

/// The offset is weighed by itself where its floor is another, where the floor follows the
/// spread of the delays, or where samples fade; the floor that follows the spread is so many
/// thousandths of how far the median delay lies over the least, and a ten-thousandth of
/// the least at least.
pub proof fn the_offset_may_be_weighed_by_itself(
    rows: Seq<Row>,
    min: int,
    config: RegressConfig,
)
    ensures
        !weighs_anew(config) <==> config.offset_floor_ppm == config.floor_ppm
            && config.dispersion_k_milli == 0 && config.halflife == 0,
        config.dispersion_k_milli == 0 ==> offset_floor(rows, min, config) == weight_floor(
            min,
            config.offset_floor_ppm as int,
        ),
        config.dispersion_k_milli > 0 ==> {
            let floor = offset_floor(rows, min, config);
            let spread = config.dispersion_k_milli * (median(delays(rows)) - min);
            &&& floor >= weight_floor(min, 100)
            &&& spread < 1000 * (floor + 1)
            &&& floor == weight_floor(min, 100) || 1000 * floor <= spread
        },
        delays(rows).len() == rows.len(),
        forall|i: int| 0 <= i < rows.len() ==> #[trigger] delays(rows)[i] == rows[i].delay,
{
}

} // verus!
