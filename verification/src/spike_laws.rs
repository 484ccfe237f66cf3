//! What trimming is for: a delayed packet does not spoil the estimate, a clock that
//! really moved is believed, and nothing else is thrown away.
//!
//! A residual is how far a sample lies off the line through all of them; three
//! robust standard deviations are 4.4478 times the median of the residuals' sizes.

use vstd::prelude::*;

use crate::arith::{size, toward_zero};
use crate::discipline::OFFSET_LIMIT;
use crate::filter::{drift_ps, is_min_delay, Sample};
use crate::ranking::{a_place_holds_one_number, at_most, below, is_ranked, lemma_median, median};
use crate::regression::{
    current_regime, despiked, dwarfed, fit_holds, fit_of, halves_differ, is_regression, largest, least_delay,
    lemma_mean_between, lemma_one_least_delay, lemma_part_weight, lemma_residual_fits,
    lemma_rows_fit, lemma_sum_le, lemma_sum_scaled, mean_offset, mean_time, no_spikes,
    regime_changed, residual, row_of, rows_fit, rows_of, runs, signs, sizes, slope, spike_limit, sum_of,
    total_weight, used_fit, used_rows, weight_floor, weight_of, Fit, RegressConfig,
    RegressEstimate, Row, FULL_WEIGHT, MAX_ROWS, REGIME_PASSES,
};
use crate::regression_laws::{flat, lemma_flat_estimate};
use crate::select::how_many;

verus! {

/// Whether row `i` of `n` is a spike: not one of the newest three, and off the line
/// by more than a nanosecond and by more than three robust standard deviations.
pub open spec fn is_spike(rows: Seq<Row>, line: Fit, i: int) -> bool {
    let far = size(residual(rows[i], line));
    &&& 0 <= i < rows.len() - 3
    &&& far > 1000
    &&& 10_000 * far > 44_478 * median(sizes(rows, line))
}

proof fn lemma_dwarfed_low(s: Seq<i128>, worst: int, m: i128, n: nat)
    requires
        n <= s.len(),
        44_478 * m < 10_000 * worst,
    ensures
        dwarfed(s.take(n as int), worst) >= at_most(s, m, n),
    decreases n,
{
    if n > 0 {
        lemma_dwarfed_low(s, worst, m, (n - 1) as nat);
        assert(s.take(n as int).drop_last() =~= s.take(n - 1));
        assert(s.take(n as int).last() == s[n - 1]);
    }
}

proof fn lemma_dwarfed_high(s: Seq<i128>, worst: int, m: i128, n: nat)
    requires
        n <= s.len(),
        44_478 * m >= 10_000 * worst,
    ensures
        dwarfed(s.take(n as int), worst) <= below(s, m, n),
    decreases n,
{
    if n > 0 {
        lemma_dwarfed_high(s, worst, m, (n - 1) as nat);
        assert(s.take(n as int).drop_last() =~= s.take(n - 1));
        assert(s.take(n as int).last() == s[n - 1]);
    }
}

proof fn lemma_largest(s: Seq<i128>)
    ensures
        largest(s) >= 0,
        forall|i: int| 0 <= i < s.len() ==> (#[trigger] s[i]) <= largest(s),
        largest(s) == 0 || exists|i: int| 0 <= i < s.len() && (#[trigger] s[i]) == largest(s),
    decreases s.len(),
{
    if s.len() > 0 {
        let t = s.drop_last();
        lemma_largest(t);
        assert forall|i: int| 0 <= i < s.len() implies (#[trigger] s[i]) <= largest(s) by {
            if i < t.len() {
                assert(t[i] == s[i]);
            }
        }
        if s.last() > largest(t) {
            assert(s[s.len() - 1] == largest(s));
        } else if largest(t) != 0 {
            let i = choose|i: int| 0 <= i < t.len() && (#[trigger] t[i]) == largest(t);
            assert(s[i] == largest(s));
        }
    }
}

/// A limit is found exactly where there is a spike, and it is the one that tells
/// the spikes from the rest.
proof fn lemma_limit(rows: Seq<Row>, line: Fit)
    requires
        rows.len() >= 5,
        forall|i: int|
            0 <= i < rows.len() ==> size(residual(#[trigger] rows[i], line)) <= i128::MAX,
    ensures
        ({
            let s = sizes(rows, line);
            match spike_limit(s) {
                None => forall|i: int| !#[trigger] is_spike(rows, line, i),
                Some(limit) => forall|i: int|
                    0 <= i < rows.len() - 3 ==> (#[trigger] is_spike(rows, line, i) <==> 10_000
                        * s[i] > limit),
            }
        }),
{
    let s = sizes(rows, line);
    let n = s.len() as int;
    let m = median(s);
    lemma_median(s);
    let front = s.take(n - 3);
    let worst = largest(front);
    lemma_largest(front);
    assert(s.take(n) =~= s);
    assert forall|i: int| 0 <= i < rows.len() - 3 implies (#[trigger] s[i]) == size(
        residual(rows[i], line),
    ) && s[i] <= worst by {
        assert(front[i] == s[i]);
    }
    if 44_478 * m < 10_000 * worst {
        lemma_dwarfed_low(s, worst, m, s.len());
    } else {
        lemma_dwarfed_high(s, worst, m, s.len());
    }
    if spike_limit(s) is None {
        assert forall|i: int| !#[trigger] is_spike(rows, line, i) by {
            if 0 <= i < rows.len() - 3 {
                assert(s[i] <= worst);
            }
        }
    } else {
        assert forall|i: int| 0 <= i < rows.len() - 3 implies (#[trigger] is_spike(rows, line, i)
            <==> 10_000 * s[i] > spike_limit(s)->Some_0) by {
            assert(s[i] == size(residual(rows[i], line)));
        }
    }
}

/// Whether row `i` is found in `kept` behind those before it that are spared.
spec fn stays(rows: Seq<Row>, kept: Seq<Row>, spared: spec_fn(int) -> bool, i: int) -> bool {
    how_many(i as nat, spared) < kept.len() && kept[how_many(i as nat, spared) as int] == rows[i]
}

proof fn lemma_kept(rows: Seq<Row>, s: Seq<i128>, limit: int, n: nat, spared: spec_fn(int) -> bool)
    requires
        n <= rows.len() == s.len(),
        forall|i: int|
            0 <= i < rows.len() ==> (#[trigger] spared(i) <==> i >= rows.len() - 3 || 10_000 * s[i]
                <= limit),
    ensures
        no_spikes(rows, s, limit, n).len() == how_many(n, spared),
        forall|i: int|
            0 <= i < n && spared(i) ==> #[trigger] stays(
                rows,
                no_spikes(rows, s, limit, n),
                spared,
                i,
            ),
    decreases n,
{
    if n > 0 {
        let m = (n - 1) as nat;
        lemma_kept(rows, s, limit, m, spared);
        assert(spared(n - 1) <==> n - 1 >= rows.len() - 3 || 10_000 * s[n - 1] <= limit);
        let kept = no_spikes(rows, s, limit, n);
        let before = no_spikes(rows, s, limit, m);
        assert forall|i: int| 0 <= i < n && spared(i) implies #[trigger] stays(
            rows,
            kept,
            spared,
            i,
        ) by {
            if i < m {
                assert(stays(rows, before, spared, i));
            }
        }
    }
}

proof fn lemma_all_spared(n: nat, spared: spec_fn(int) -> bool)
    requires
        forall|i: int| 0 <= i < n ==> #[trigger] spared(i),
    ensures
        how_many(n, spared) == n,
    decreases n,
{
    if n > 0 {
        lemma_all_spared((n - 1) as nat, spared);
        assert(spared(n - 1));
    }
}

/// Exactly the spikes are dropped: of five rows or more, every one that is no spike
/// stays, in its place among the others that stay, and no spike does. Where no row
/// but a spike weighs anything, none is dropped.
pub proof fn exactly_the_spikes_are_dropped(rows: Seq<Row>, line: Fit, heavy: int)
    requires
        rows.len() >= 5,
        forall|i: int|
            0 <= i < rows.len() ==> size(residual(#[trigger] rows[i], line)) <= i128::MAX,
        0 <= heavy < rows.len(),
        !is_spike(rows, line, heavy),
        rows[heavy].w > 0,
    ensures
        ({
            let kept = despiked(rows, line).0;
            let spared = |i: int| !is_spike(rows, line, i);
            &&& kept.len() == how_many(rows.len(), spared)
            &&& forall|i: int|
                0 <= i < rows.len() && !is_spike(rows, line, i) ==> kept[how_many(
                    i as nat,
                    spared,
                ) as int] == #[trigger] rows[i]
        }),
        (exists|i: int| #[trigger] is_spike(rows, line, i)) ==> despiked(rows, line).1 == fit_of(
            despiked(rows, line).0,
        ) && total_weight(despiked(rows, line).0) > 0,
        (forall|i: int| !#[trigger] is_spike(rows, line, i)) ==> despiked(rows, line) == (
            rows,
            line,
        ),
{
    let s = sizes(rows, line);
    let n = rows.len();
    let spared = |i: int| !is_spike(rows, line, i);
    lemma_limit(rows, line);
    match spike_limit(s) {
        None => {
            assert forall|i: int| 0 <= i < n implies #[trigger] spared(i) by {
                assert(!is_spike(rows, line, i));
            }
            lemma_all_spared(n, spared);
            assert forall|i: int| 0 <= i < n && !is_spike(rows, line, i) implies rows[how_many(
                i as nat,
                spared,
            ) as int] == #[trigger] rows[i] by {
                lemma_all_spared(i as nat, spared);
            }
        },
        Some(limit) => {
            assert forall|i: int| 0 <= i < n implies (#[trigger] spared(i) <==> i >= n - 3 || 10_000
                * s[i] <= limit) by {
                if i < n - 3 {
                    assert(is_spike(rows, line, i) <==> 10_000 * s[i] > limit);
                }
            }
            lemma_kept(rows, s, limit, n, spared);
            let kept = no_spikes(rows, s, limit, n);
            lemma_three_stay(n, spared);
            assert(spared(heavy));
            assert(stays(rows, kept, spared, heavy));
            lemma_weight_within(kept, how_many(heavy as nat, spared) as int);
            lemma_a_spike_is_there(rows, line);
            assert(despiked(rows, line) == (kept, fit_of(kept)));
            assert forall|i: int| 0 <= i < n && !is_spike(rows, line, i) implies kept[how_many(
                i as nat,
                spared,
            ) as int] == #[trigger] rows[i] by {
                assert(spared(i));
                assert(stays(rows, kept, spared, i));
            }
        },
    }
}

/// Rows weigh no less than any one of them.
proof fn lemma_weight_within(rows: Seq<Row>, i: int)
    requires
        0 <= i < rows.len(),
    ensures
        total_weight(rows) >= rows[i].w,
{
    lemma_part_weight(rows, i);
    lemma_part_weight(rows, i + 1);
    assert(rows.take(i + 1).drop_last() =~= rows.take(i));
    assert(rows.take(i + 1).last() == rows[i]);
}

/// Where a limit is found, something exceeds it.
proof fn lemma_a_spike_is_there(rows: Seq<Row>, line: Fit)
    requires
        rows.len() >= 5,
        forall|i: int|
            0 <= i < rows.len() ==> size(residual(#[trigger] rows[i], line)) <= i128::MAX,
        spike_limit(sizes(rows, line)) is Some,
    ensures
        exists|i: int| #[trigger] is_spike(rows, line, i),
{
    let s = sizes(rows, line);
    let n = s.len() as int;
    let m = median(s);
    lemma_median(s);
    let front = s.take(n - 3);
    let worst = largest(front);
    lemma_largest(front);
    assert(s.take(n) =~= s);
    if 44_478 * m >= 10_000 * worst {
        lemma_dwarfed_high(s, worst, m, s.len());
    }
    let i = choose|i: int| 0 <= i < front.len() && (#[trigger] front[i]) == worst;
    assert(s[i] == worst);
    assert(s[i] == size(residual(rows[i], line)));
    assert(is_spike(rows, line, i));
}

proof fn lemma_three_stay(n: nat, spared: spec_fn(int) -> bool)
    requires
        n >= 5,
        forall|i: int| n - 3 <= i < n ==> #[trigger] spared(i),
    ensures
        how_many(n, spared) >= 3,
{
    assert(spared(n - 1) && spared(n - 2) && spared(n - 3));
    reveal_with_fuel(how_many, 4);
}

/// The line through rows is one that the arithmetic holds, and so is how far they
/// are off it.
proof fn lemma_fit_holds(rows: Seq<Row>)
    requires
        rows.len() > 0,
        rows_fit(rows),
        total_weight(rows) >= 1,
    ensures
        fit_holds(fit_of(rows)),
        fit_of(rows).a == mean_offset(rows),
        fit_of(rows).t0 == mean_time(rows),
        forall|i: int|
            0 <= i < rows.len() ==> size(residual(#[trigger] rows[i], fit_of(rows))) <= i128::MAX,
{
    let base = rows[0].t as int;
    let line = fit_of(rows);
    let wt = |r: Row| r.w * (r.t - base);
    let wy = |r: Row| r.w * r.offset;
    lemma_mean_between(rows, |r: Row| r.t - base, -base, u64::MAX - base);
    lemma_mean_between(rows, |r: Row| r.offset as int, -(OFFSET_LIMIT as int), OFFSET_LIMIT as int);
    lemma_sum_le(rows, |r: Row| r.w * (|r: Row| r.t - base)(r), wt);
    lemma_sum_le(rows, wt, |r: Row| r.w * (|r: Row| r.t - base)(r));
    lemma_sum_le(rows, |r: Row| r.w * (|r: Row| r.offset as int)(r), wy);
    lemma_sum_le(rows, wy, |r: Row| r.w * (|r: Row| r.offset as int)(r));
    assert forall|i: int| 0 <= i < rows.len() implies size(
        residual(#[trigger] rows[i], line),
    ) <= i128::MAX by {
        lemma_residual_fits(rows[i], line);
    }
}

proof fn lemma_all_but_one(n: nat, k: int, spared: spec_fn(int) -> bool)
    requires
        0 <= k,
        forall|i: int| 0 <= i < n ==> (#[trigger] spared(i) <==> i != k),
    ensures
        how_many(n, spared) == if n > k {
            n - 1
        } else {
            n as int
        },
    decreases n,
{
    if n > 0 {
        lemma_all_but_one((n - 1) as nat, k, spared);
        assert(spared(n - 1) <==> n - 1 != k);
    }
}

/// A delayed packet is trimmed: where every sample of a window says one offset but
/// for one, not among the newest three, that lies off the line through all of them
/// by more than three robust standard deviations and a nanosecond, and no other
/// does, that one is left out and the estimate is what all the others say: no
/// frequency error and no dispersion. Windows in which a change of regime is seen
/// are another matter: they lose their history first. `heavy` is one of the others
/// that weighs something.
pub proof fn a_delayed_packet_is_trimmed(
    window: Seq<Sample>,
    config: RegressConfig,
    now: u64,
    est: RegressEstimate,
    c: int,
    k: int,
    heavy: int,
)
    requires
        5 <= window.len() <= MAX_ROWS,
        0 <= k < window.len() - 3,
        forall|i: int| 0 <= i < window.len() && i != k ==> (#[trigger] window[i]).offset == c,
        -OFFSET_LIMIT <= c <= OFFSET_LIMIT,
        is_regression(window, config, now, est),
        ({
            let rows = rows_of(window, config);
            let line = fit_of(rows);
            &&& forall|i: int| 0 <= i < rows.len() ==> (#[trigger] is_spike(rows, line, i) <==> i == k)
            &&& rows.len() < 8 || !regime_changed(rows, line)
            &&& 0 <= heavy < rows.len() && heavy != k && rows[heavy].w > 0
        }),
    ensures
        est.n_used == window.len() - 1,
        est.offset == c,
        est.freq_ppq is Some ==> est.freq_ppq == Some(0i64),
        est.offset_sd == 0,
{
    let rows = rows_of(window, config);
    let line = fit_of(rows);
    let n = rows.len();
    lemma_rows_fit(window, config);
    lemma_fit_holds(rows);
    assert(!is_spike(rows, line, heavy));
    assert(is_spike(rows, line, k));
    exactly_the_spikes_are_dropped(rows, line, heavy);
    assert(current_regime(rows, line, REGIME_PASSES as nat) == (rows, line));
    let kept = despiked(rows, line).0;
    let spared = |i: int| !is_spike(rows, line, i);
    assert forall|i: int| 0 <= i < n implies (#[trigger] spared(i) <==> i != k) by {
        assert(is_spike(rows, line, i) <==> i == k);
    }
    lemma_all_but_one(n, k, spared);
    assert forall|j: int| 0 <= j < kept.len() implies (#[trigger] kept[j]).offset == c by {
        let i = if j < k {
            j
        } else {
            j + 1
        };
        lemma_all_but_one(i as nat, k, spared);
        assert(!is_spike(rows, line, i));
        assert(kept[how_many(i as nat, spared) as int] == rows[i]);
        assert(window[i].offset == c);
    }
    assert(flat(kept, c));
    lemma_flat_estimate(window, config, now, est, kept, c);
}

/// The times of samples, together.
pub open spec fn time_total(window: Seq<Sample>) -> int
    decreases window.len(),
{
    if window.len() == 0 {
        0
    } else {
        time_total(window.drop_last()) + window.last().t
    }
}

/// A sum over rows of which all but one add the same.
proof fn lemma_sum_but_one(rows: Seq<Row>, f: spec_fn(Row) -> int, k: int, x: int, y: int)
    requires
        forall|i: int| 0 <= i < rows.len() && i != k ==> f(#[trigger] rows[i]) == x,
        0 <= k < rows.len() ==> f(rows[k]) == y,
    ensures
        sum_of(rows, f) == if 0 <= k < rows.len() {
            (rows.len() - 1) * x + y
        } else {
            rows.len() * x
        },
    decreases rows.len(),
{
    let n = rows.len() as int;
    if n > 0 {
        let fewer = rows.drop_last();
        assert forall|i: int| 0 <= i < fewer.len() && i != k implies f(#[trigger] fewer[i]) == x by {
            assert(fewer[i] == rows[i]);
        }
        if 0 <= k < n - 1 {
            assert(fewer[k] == rows[k]);
        }
        lemma_sum_but_one(fewer, f, k, x, y);
        assert(rows.last() == rows[n - 1]);
        assert((n - 1) * x + x == n * x && (n - 2) * x + x == (n - 1) * x) by (nonlinear_arith);
    } else {
        assert(0 * x == 0);
    }
}

proof fn lemma_count_but_one(s: Seq<i128>, k: int, x: i128, n: nat)
    requires
        n <= s.len(),
        forall|i: int| 0 <= i < s.len() && i != k ==> (#[trigger] s[i]) == x,
        0 <= k < s.len() ==> s[k] >= x,
    ensures
        below(s, x, n) == 0,
        at_most(s, x, n) >= n - 1,
        n <= k ==> at_most(s, x, n) == n,
    decreases n,
{
    if n > 0 {
        lemma_count_but_one(s, k, x, (n - 1) as nat);
        if n - 1 != k {
            assert(s[n - 1] == x);
        }
    }
}

proof fn lemma_time_sum(window: Seq<Sample>, rows: Seq<Row>, t: int)
    requires
        window.len() == rows.len(),
        forall|i: int| 0 <= i < rows.len() ==> (#[trigger] rows[i]).t == window[i].t,
    ensures
        sum_of(rows, |r: Row| r.t - t) == time_total(window) - rows.len() * t,
    decreases rows.len(),
{
    let n = rows.len() as int;
    if n > 0 {
        let fewer = rows.drop_last();
        let shorter = window.drop_last();
        assert forall|i: int| 0 <= i < fewer.len() implies (#[trigger] fewer[i]).t
            == shorter[i].t by {
            assert(fewer[i] == rows[i]);
            assert(shorter[i] == window[i]);
        }
        lemma_time_sum(shorter, fewer, t);
        assert(rows[n - 1].t == window[n - 1].t);
        assert((n - 1) * t + t == n * t) by (nonlinear_arith);
    } else {
        assert(0 * t == 0);
    }
}

/// Two sums over rows whose terms agree.
proof fn lemma_same_sum(rows: Seq<Row>, f: spec_fn(Row) -> int, g: spec_fn(Row) -> int)
    requires
        forall|i: int| 0 <= i < rows.len() ==> f(#[trigger] rows[i]) == g(rows[i]),
    ensures
        sum_of(rows, f) == sum_of(rows, g),
{
    lemma_sum_le(rows, f, g);
    lemma_sum_le(rows, g, f);
}

proof fn lemma_exact_quotient(x: int, d: int)
    requires
        d > 0,
    ensures
        toward_zero(x * d, d) == x,
{
    if x < 0 {
        let y = -x;
        assert(-(x * d) == y * d && x * d < 0) by (nonlinear_arith)
            requires
                y == -x,
                x < 0,
                d > 0,
        ;
        vstd::arithmetic::div_mod::lemma_div_multiples_vanish(y, d);
        assert(d * y == y * d) by (nonlinear_arith);
    } else {
        assert(x * d >= 0) by (nonlinear_arith)
            requires
                x >= 0,
                d > 0,
        ;
        vstd::arithmetic::div_mod::lemma_div_multiples_vanish(x, d);
        assert(d * x == x * d) by (nonlinear_arith);
    }
}

/// The line through samples of one delay that all say `c` but for one, at the middle
/// of their times, that says `far` more: it is level, and off `c` by one in so many
/// of `far`.
proof fn lemma_level_line(
    window: Seq<Sample>,
    config: RegressConfig,
    c: int,
    far: int,
    k: int,
) -> (g: int)
    requires
        6 <= window.len() <= MAX_ROWS,
        0 <= k < window.len(),
        !config.density,
        forall|i: int| 0 <= i < window.len() ==> (#[trigger] window[i]).delay == window[0].delay,
        forall|i: int| 0 <= i < window.len() && i != k ==> (#[trigger] window[i]).offset == c,
        window[k].offset == c + far,
        time_total(window) == window.len() * window[k].t,
        -OFFSET_LIMIT <= c <= OFFSET_LIMIT,
        -OFFSET_LIMIT <= c + far <= OFFSET_LIMIT,
    ensures
        ({
            let rows = rows_of(window, config);
            let line = fit_of(rows);
            let n = rows.len() as int;
            &&& -n < n * g - far < n
            &&& forall|i: int|
                0 <= i < n && i != k ==> residual(#[trigger] rows[i], line) == -g
            &&& residual(rows[k], line) == far - g
            &&& forall|i: int| 0 <= i < n ==> (#[trigger] rows[i]).w == FULL_WEIGHT
        }),
{
    let rows = rows_of(window, config);
    let n = rows.len() as int;
    let min = least_delay(window) as int;
    let delay = window[0].delay;
    assert(is_min_delay(window, Some(delay))) by {
        assert(window[0].delay == delay);
    }
    lemma_one_least_delay(window, delay, least_delay(window));
    let floor = weight_floor(min, config.floor_ppm as int);
    assert(floor >= 1000);
    let ff = floor * floor;
    assert(ff > 0) by (nonlinear_arith)
        requires
            ff == floor * floor,
            floor > 0,
    ;
    vstd::arithmetic::div_mod::lemma_div_multiples_vanish(FULL_WEIGHT as int, ff);
    assert(weight_of(delay as int, min, floor) == FULL_WEIGHT);
    assert forall|i: int| 0 <= i < n implies (#[trigger] rows[i]).w == FULL_WEIGHT && rows[i].t
        == window[i].t && rows[i].offset == if i == k {
        c + far
    } else {
        c
    } by {
        assert(rows[i] == row_of(window, i, min, config));
        assert(window[i].delay == delay);
        if i != k {
            assert(window[i].offset == c);
        }
    }
    let full = FULL_WEIGHT as int;
    lemma_rows_fit(window, config);
    lemma_fit_holds(rows);
    let line = fit_of(rows);
    // The weights.
    lemma_sum_but_one(rows, |r: Row| r.w as int, k, full, full);
    let total = total_weight(rows);
    assert((n - 1) * full + full == n * full) by (nonlinear_arith);
    // The mean time is that of the odd one.
    let tk = window[k].t as int;
    let base = rows[0].t as int;
    let ft = |r: Row| r.t - base;
    lemma_same_sum(rows, |r: Row| r.w * (r.t - base), |r: Row| full * ft(r));
    lemma_sum_scaled(rows, ft, full);
    lemma_time_sum(window, rows, base);
    assert(n * tk - n * base == n * (tk - base)) by (nonlinear_arith);
    assert(full * (n * (tk - base)) == (tk - base) * (n * full)) by (nonlinear_arith);
    lemma_exact_quotient(tk - base, n * full);
    assert(mean_time(rows) == tk);
    // The mean offset.
    let fo = |r: Row| r.offset as int;
    lemma_same_sum(rows, |r: Row| r.w * r.offset, |r: Row| full * fo(r));
    lemma_sum_scaled(rows, fo, full);
    lemma_sum_but_one(rows, fo, k, c, c + far);
    assert((n - 1) * c + (c + far) == n * c + far) by (nonlinear_arith);
    let a = mean_offset(rows);
    assert(full * (n * c + far) == (n * c + far) * full) by (nonlinear_arith);
    lemma_scaled_quotient(n * c + far, n, full);
    assert(a == toward_zero(n * c + far, n));
    let g = a - c;
    lemma_near_quotient(n * c + far, n);
    assert(n * g == n * a - n * c) by (nonlinear_arith)
        requires
            g == a - c,
    ;
    assert(a * n == n * a) by (nonlinear_arith);
    // The slope.
    let fx = |r: Row| r.t - tk;
    let fxy = |r: Row| r.w * ((r.t - tk) * (r.offset - a));
    let m = full * (-g);
    assert forall|i: int| 0 <= i < n implies fxy(#[trigger] rows[i]) == m * fx(rows[i]) by {
        let x = rows[i].t - tk;
        let y = rows[i].offset - a;
        if i == k {
            assert(full * (0 * y) == 0 && m * 0 == 0) by (nonlinear_arith);
        } else {
            assert(full * (x * (-g)) == (full * (-g)) * x) by (nonlinear_arith);
        }
    }
    lemma_same_sum(rows, fxy, |r: Row| m * fx(r));
    lemma_sum_scaled(rows, fx, m);
    lemma_time_sum(window, rows, tk);
    assert(m * 0 == 0);
    assert(sum_of(rows, fxy) == 0);
    assert(slope(rows, tk, a) == 0) by {
        let xx = sum_of(rows, |r: Row| r.w * ((r.t - tk) * (r.t - tk)));
        if xx > 1_000_000 * FULL_WEIGHT {
            assert(0int / xx == 0) by (nonlinear_arith)
                requires
                    xx > 0,
            ;
        }
    }
    assert(line.b == 0 && line.a == a && line.t0 == tk);
    assert forall|i: int| 0 <= i < n implies residual(#[trigger] rows[i], line) == rows[i].offset
        - a by {
        let dt = rows[i].t - line.t0;
        assert(0 * dt == 0);
        assert(drift_ps(0, dt) == 0);
    }
    g
}

proof fn lemma_scaled_quotient(x: int, n: int, m: int)
    requires
        n > 0,
        m > 0,
    ensures
        toward_zero(x * m, n * m) == toward_zero(x, n),
{
    let y = if x < 0 {
        -x
    } else {
        x
    };
    assert(n * m > 0) by (nonlinear_arith)
        requires
            n > 0,
            m > 0,
    ;
    vstd::arithmetic::div_mod::lemma_div_denominator(y * m, m, n);
    vstd::arithmetic::div_mod::lemma_div_multiples_vanish(y, m);
    assert(m * y == y * m && m * n == n * m) by (nonlinear_arith);
    assert(x < 0 ==> x * m < 0 && -(x * m) == y * m) by (nonlinear_arith)
        requires
            m > 0,
            x < 0 ==> y == -x,
    ;
    assert(x >= 0 ==> x * m >= 0) by (nonlinear_arith)
        requires
            m > 0,
    ;
}

proof fn lemma_near_quotient(x: int, n: int)
    requires
        n > 0,
    ensures
        -n < toward_zero(x, n) * n - x < n,
{
    let y = if x < 0 {
        -x
    } else {
        x
    };
    vstd::arithmetic::div_mod::lemma_fundamental_div_mod(y, n);
    let q = y / n;
    assert(n * q == q * n && (-q) * n == -(q * n)) by (nonlinear_arith);
}

/// The halves of such a window do not disagree enough to be two regimes.
proof fn lemma_one_regime(rows: Seq<Row>, line: Fit, far: int, g: int, k: int)
    requires
        rows.len() >= 6,
        0 <= k < rows.len(),
        far >= 1000 * rows.len() || far <= -1000 * rows.len(),
        ({
            let n = rows.len() as int;
            -n < n * g - far < n
        }),
        forall|i: int| 0 <= i < rows.len() && i != k ==> residual(#[trigger] rows[i], line) == -g,
        residual(rows[k], line) == far - g,
        median(sizes(rows, line)) == size(g),
    ensures
        !regime_changed(rows, line),
{
    let n = rows.len() as int;
    let h = n / 2;
    let f = |r: Row| residual(r, line);
    if n >= 8 {
        let old = rows.take(h);
        let new = rows.skip(h);
        assert forall|i: int| 0 <= i < old.len() && i != k implies f(#[trigger] old[i]) == -g by {
            assert(old[i] == rows[i]);
        }
        assert forall|i: int| 0 <= i < new.len() && i != k - h implies f(#[trigger] new[i])
            == -g by {
            assert(new[i] == rows[i + h]);
        }
        if k < h {
            assert(old[k] == rows[k]);
        } else {
            assert(new[k - h] == rows[k]);
        }
        lemma_sum_but_one(old, f, k, -g, far - g);
        lemma_sum_but_one(new, f, k - h, -g, far - g);
        let a = sum_of(old, f);
        let b = sum_of(new, f);
        let m = n - h;
        if k < h {
            assert(a == far - h * g) by (nonlinear_arith)
                requires
                    a == (h - 1) * (-g) + (far - g),
            ;
            assert(b == -(m * g)) by (nonlinear_arith)
                requires
                    b == m * (-g),
            ;
            assert(a * m - b * h == far * m) by (nonlinear_arith)
                requires
                    a == far - h * g,
                    b == -(m * g),
            ;
        } else {
            assert(a == -(h * g)) by (nonlinear_arith)
                requires
                    a == h * (-g),
            ;
            assert(b == far - m * g) by (nonlinear_arith)
                requires
                    b == (m - 1) * (-g) + (far - g),
            ;
            assert(a * m - b * h == -(far * h)) by (nonlinear_arith)
                requires
                    a == -(h * g),
                    b == far - m * g,
            ;
        }
        let s = size(far) as int;
        let v = size(g) as int;
        let gap = size(a * m - b * h) as int;
        assert(gap == if k < h {
            s * m
        } else {
            s * h
        }) by (nonlinear_arith)
            requires
                gap == size(a * m - b * h),
                a * m - b * h == if k < h {
                    far * m
                } else {
                    -(far * h)
                },
                s == size(far),
                m >= 0,
                h >= 0,
        ;
        assert(h <= m);
        assert(s * h <= s * m) by (nonlinear_arith)
            requires
                0 <= h <= m,
                s >= 0,
        ;
        // The median is about one in so many of the spike.
        assert(n * v > s - n) by (nonlinear_arith)
            requires
                -n < n * g - far < n,
                v == size(g),
                s == size(far),
                n > 0,
        ;
        assert(2 * h >= n - 1);
        assert(44_478 * (h * v) >= 10_000 * s) by (nonlinear_arith)
            requires
                n * v > s - n,
                2 * h >= n - 1,
                n >= 8,
                s >= 1000 * n,
                v >= 0,
        ;
        assert(10_000 * (s * m) <= h * m * (44_478 * v)) by (nonlinear_arith)
            requires
                44_478 * (h * v) >= 10_000 * s,
                m >= 0,
        ;
        let noise = 44_478 * median(sizes(rows, line));
        let scale = if noise > 30_000_000 {
            noise as int
        } else {
            30_000_000
        };
        assert(h * m * (44_478 * v) <= h * m * scale) by (nonlinear_arith)
            requires
                44_478 * v <= scale,
                h >= 0,
                m >= 0,
        ;
        assert(!halves_differ(rows, line));
    }
}

/// A delayed packet in the middle of a window does no harm, however many samples
/// there are: of six or more with one delay, all say `c` but one, that is not among
/// the newest three, was taken at the mean of all their times, and says something
/// further off than a nanosecond for each of them, ahead or behind. Then that one is
/// left out, and the estimate is `c`, with no frequency error and no dispersion.
pub proof fn a_spike_in_the_middle_is_trimmed(
    window: Seq<Sample>,
    config: RegressConfig,
    now: u64,
    est: RegressEstimate,
    c: int,
    far: int,
    k: int,
)
    requires
        6 <= window.len() <= MAX_ROWS,
        0 <= k < window.len() - 3,
        !config.density,
        forall|i: int| 0 <= i < window.len() ==> (#[trigger] window[i]).delay == window[0].delay,
        forall|i: int| 0 <= i < window.len() && i != k ==> (#[trigger] window[i]).offset == c,
        window[k].offset == c + far,
        time_total(window) == window.len() * window[k].t,
        far >= 1000 * window.len() || far <= -1000 * window.len(),
        -OFFSET_LIMIT <= c <= OFFSET_LIMIT,
        -OFFSET_LIMIT <= c + far <= OFFSET_LIMIT,
        is_regression(window, config, now, est),
    ensures
        est.n_used == window.len() - 1,
        est.offset == c,
        est.freq_ppq is Some ==> est.freq_ppq == Some(0i64),
        est.offset_sd == 0,
{
    let rows = rows_of(window, config);
    let line = fit_of(rows);
    let n = rows.len() as int;
    let g = lemma_level_line(window, config, c, far, k);
    let s = sizes(rows, line);
    let x = size(g) as int;
    let y = size(far - g) as int;
    lemma_rows_fit(window, config);
    lemma_fit_holds(rows);
    assert(residual(rows[k], line) == far - g);
    let other = if k == 0 {
        1
    } else {
        0
    };
    assert(residual(rows[other], line) == -g);
    assert(size(residual(rows[other], line)) <= i128::MAX);
    assert(size(residual(rows[k], line)) <= i128::MAX);
    assert(size(-g) == size(g));
    assert(10_000 * y > 44_478 * x && y > 1000) by (nonlinear_arith)
        requires
            -n < n * g - far < n,
            x == size(g),
            y == size(far - g),
            n >= 6,
            far >= 1000 * n || far <= -1000 * n,
    ;
    assert forall|i: int| 0 <= i < s.len() && i != k implies (#[trigger] s[i]) == x as i128 by {
        assert(residual(rows[i], line) == -g);
    }
    assert(s[k] == y as i128);
    lemma_count_but_one(s, k, x as i128, s.len());
    assert(s[other] == x as i128);
    assert(s.contains(x as i128));
    assert(is_ranked(s, s.len() / 2, x as i128));
    lemma_median(s);
    a_place_holds_one_number(s, s.len() / 2, x as i128, median(s));
    lemma_one_regime(rows, line, far, g, k);
    assert forall|i: int| 0 <= i < rows.len() implies (#[trigger] is_spike(rows, line, i) <==> i
        == k) by {
        if i != k {
            assert(residual(rows[i], line) == -g);
        }
    }
    assert(rows[other].w == FULL_WEIGHT);
    a_delayed_packet_is_trimmed(window, config, now, est, c, k, other);
}

proof fn lemma_two_runs(signs: Seq<bool>, h: int, first: bool)
    requires
        0 < h <= signs.len(),
        forall|i: int| 0 <= i < h ==> (#[trigger] signs[i]) == first,
        forall|i: int| h <= i < signs.len() ==> (#[trigger] signs[i]) != first,
    ensures
        runs(signs) == if h < signs.len() {
            2nat
        } else {
            1
        },
    decreases signs.len(),
{
    let n = signs.len() as int;
    let fewer = signs.drop_last();
    reveal_with_fuel(runs, 2);
    assert(signs.last() == signs[n - 1]);
    if n > 1 {
        assert forall|i: int| 0 <= i < fewer.len() implies (#[trigger] fewer[i]) == signs[i] by {}
        if h < n {
            assert(signs[n - 1] != first);
            lemma_two_runs(fewer, h, first);
            if h < n - 1 {
                assert(signs[n - 2] != first);
            } else {
                assert(signs[n - 2] == first);
            }
        } else {
            lemma_two_runs(fewer, n - 1, first);
            assert(signs[n - 2] == first && signs[n - 1] == first);
        }
    } else {
        assert(fewer.len() == 0);
    }
}

proof fn lemma_sum_least(rows: Seq<Row>, f: spec_fn(Row) -> int, low: int)
    requires
        forall|i: int| 0 <= i < rows.len() ==> f(#[trigger] rows[i]) >= low,
    ensures
        sum_of(rows, f) >= rows.len() * low,
    decreases rows.len(),
{
    let n = rows.len() as int;
    if n > 0 {
        let fewer = rows.drop_last();
        assert forall|i: int| 0 <= i < fewer.len() implies f(#[trigger] fewer[i]) >= low by {
            assert(fewer[i] == rows[i]);
        }
        lemma_sum_least(fewer, f, low);
        assert(rows.last() == rows[n - 1]);
        assert((n - 1) * low + low == n * low) by (nonlinear_arith);
    } else {
        assert(0 * low == 0);
    }
}

/// A clock that really moved is believed over its past: where the older half of
/// eight rows or more lies above the line through all of them by `up` at least, and
/// the newer half on it or below by `down` at least, or the other way round, and the
/// two together are more than three robust standard deviations and three
/// nanoseconds, the oldest quarter is no longer used.
pub proof fn a_clock_that_moved_is_believed(
    window: Seq<Sample>,
    config: RegressConfig,
    up: int,
    down: int,
    falls: bool,
)
    requires
        8 <= window.len() <= MAX_ROWS,
        up >= 1,
        down >= 1,
        ({
            let rows = rows_of(window, config);
            let line = fit_of(rows);
            let n = rows.len() as int;
            &&& forall|i: int|
                0 <= i < n / 2 ==> if falls {
                    residual(#[trigger] rows[i], line) >= up
                } else {
                    residual(rows[i], line) <= -up
                }
            &&& forall|i: int|
                n / 2 <= i < n ==> if falls {
                    residual(#[trigger] rows[i], line) <= -down
                } else {
                    residual(rows[i], line) >= down
                }
            &&& 10_000 * (up + down) > 44_478 * median(sizes(rows, line))
            &&& up + down > 3000
        }),
    ensures
        used_rows(window, config).len() <= window.len() - window.len() / 4,
        used_rows(window, config).len() <= window.len() - 2,
{
    let rows = rows_of(window, config);
    let line = fit_of(rows);
    let n = rows.len() as int;
    let h = n / 2;
    let all = signs(rows, line);
    assert forall|i: int| 0 <= i < h implies (#[trigger] all[i]) == falls by {
        assert(residual(rows[i], line) >= up || residual(rows[i], line) <= -up);
    }
    assert forall|i: int| h <= i < all.len() implies (#[trigger] all[i]) != falls by {
        assert(residual(rows[i], line) >= down || residual(rows[i], line) <= -down);
    }
    lemma_two_runs(all, h, falls);
    let f = |r: Row| residual(r, line);
    let g = |r: Row| (-1) * f(r);
    let old = rows.take(h);
    let new = rows.skip(h);
    lemma_sum_scaled(old, f, -1);
    lemma_sum_scaled(new, f, -1);
    assert forall|i: int| 0 <= i < old.len() implies (if falls {
        f(#[trigger] old[i])
    } else {
        g(old[i])
    }) >= up by {
        assert(old[i] == rows[i]);
        assert(residual(rows[i], line) >= up || residual(rows[i], line) <= -up);
    }
    assert forall|i: int| 0 <= i < new.len() implies (if falls {
        g(#[trigger] new[i])
    } else {
        f(new[i])
    }) >= down by {
        assert(new[i] == rows[i + h]);
        assert(residual(rows[i + h], line) >= down || residual(rows[i + h], line) <= -down);
    }
    let a = sum_of(old, f);
    let b = sum_of(new, f);
    let m = n - h;
    if falls {
        lemma_sum_least(old, f, up);
        lemma_sum_least(new, g, down);
        lemma_same_sum(new, g, |r: Row| (-1) * f(r));
    } else {
        lemma_sum_least(old, g, up);
        lemma_sum_least(new, f, down);
        lemma_same_sum(old, g, |r: Row| (-1) * f(r));
    }
    let p = if falls {
        a
    } else {
        -a
    };
    let q = if falls {
        -b
    } else {
        b
    };
    assert(p >= h * up && q >= m * down);
    let gap = size(a * m - b * h) as int;
    assert(a * m - b * h == if falls {
        p * m + q * h
    } else {
        -(p * m + q * h)
    }) by (nonlinear_arith)
        requires
            p == if falls {
                a
            } else {
                -a
            },
            q == if falls {
                -b
            } else {
                b
            },
    ;
    assert(p * m + q * h >= h * m * (up + down)) by (nonlinear_arith)
        requires
            p >= h * up,
            q >= m * down,
            h > 0,
            m > 0,
    ;
    let noise = 44_478 * median(sizes(rows, line));
    let scale = if noise > 30_000_000 {
        noise as int
    } else {
        30_000_000
    };
    assert(h * m * (10_000 * (up + down)) > h * m * scale) by (nonlinear_arith)
        requires
            10_000 * (up + down) > scale,
            h > 0,
            m > 0,
    ;
    assert(h * m * (10_000 * (up + down)) == 10_000 * (h * m * (up + down))) by (nonlinear_arith);
    assert(halves_differ(rows, line));
    assert(regime_changed(rows, line));
    let drop = if n / 4 < 2 {
        2
    } else {
        n / 4
    };
    let rest = rows.skip(drop);
    let (regime, last) = current_regime(rows, line, REGIME_PASSES as nat);
    lemma_regime_shrinks(rest, fit_of(rest), (REGIME_PASSES - 1) as nat);
    assert(regime.len() <= n - drop);
    lemma_despiked_shrinks(regime, last);
}

proof fn lemma_regime_shrinks(rows: Seq<Row>, line: Fit, passes: nat)
    ensures
        current_regime(rows, line, passes).0.len() <= rows.len(),
    decreases passes,
{
    if passes > 0 && regime_changed(rows, line) {
        let rest = rows.skip(crate::regression::regime_drop(rows.len() as int));
        lemma_regime_shrinks(rest, fit_of(rest), (passes - 1) as nat);
    }
}

proof fn lemma_no_spikes_shrinks(rows: Seq<Row>, s: Seq<i128>, limit: int, n: nat)
    ensures
        no_spikes(rows, s, limit, n).len() <= n,
    decreases n,
{
    if n > 0 {
        lemma_no_spikes_shrinks(rows, s, limit, (n - 1) as nat);
    }
}

proof fn lemma_despiked_shrinks(rows: Seq<Row>, line: Fit)
    ensures
        despiked(rows, line).0.len() <= rows.len(),
{
    let s = sizes(rows, line);
    if spike_limit(s) is Some {
        lemma_no_spikes_shrinks(rows, s, spike_limit(s)->Some_0, rows.len());
    }
}

/// Short windows are taken whole: of fewer than eight samples none is thought stale,
/// and of four or fewer none is thought a spike.
pub proof fn short_windows_are_taken_whole(window: Seq<Sample>, config: RegressConfig)
    requires
        window.len() <= 4,
    ensures
        used_rows(window, config) == rows_of(window, config),
        used_fit(window, config).1 == fit_of(rows_of(window, config)),
{
}

} // verus!
