//! What holds of every regression.

use vstd::prelude::*;

use crate::arith::{size, toward_zero};
use crate::discipline::OFFSET_LIMIT;
use crate::filter::{drift_ps, Sample};
use crate::ranking::median;
use crate::regression::{
    age_of, current_regime, despiked, fit_of, halves_differ, is_regression, largest, least_delay,
    lemma_reweighted, lemma_rows_fit, lemma_sum_le, lemma_sum_scaled, lemma_youngest, mean_offset,
    mean_time, no_spikes, offset_floor, offset_rows, regime_changed, regime_drop, residual,
    rows_of, sizes, slope, spike_limit, square_sum, sum_of, total_weight, used_fit,
    used_rows,
    youngest, Fit, RegressConfig, RegressEstimate, Row, FULL_WEIGHT, MAX_ROWS, PROTECTED_ROWS,
    REGIME_PASSES,
};

verus! {

proof fn lemma_regime_is_a_suffix(rows: Seq<Row>, line: Fit, passes: nat)
    requires
        rows.len() >= 3,
    ensures
        current_regime(rows, line, passes).0.len() >= 3,
        current_regime(rows, line, passes).0.len() <= rows.len(),
        current_regime(rows, line, passes).0 == rows.skip(
            rows.len() - current_regime(rows, line, passes).0.len(),
        ),
    decreases passes,
{
    if passes == 0 || !regime_changed(rows, line) {
        assert(rows.skip(0) =~= rows);
    } else {
        let d = regime_drop(rows.len() as int);
        let rest = rows.skip(d);
        if total_weight(rest) != 0 {
            lemma_regime_is_a_suffix(rest, fit_of(rest), (passes - 1) as nat);
        }
        let kept = current_regime(rows, line, passes).0;
        assert(rest.skip(rest.len() - kept.len()) =~= rows.skip(rows.len() - kept.len()));
        assert(rest.skip(0) =~= rest);
    }
}

proof fn lemma_protected_stay(rows: Seq<Row>, s: Seq<i128>, limit: int)
    requires
        rows.len() >= 3,
    ensures
        no_spikes(rows, s, limit, rows.len()).len() >= 3,
        no_spikes(rows, s, limit, rows.len()).skip(
            no_spikes(rows, s, limit, rows.len()).len() - 3,
        ) == rows.skip(rows.len() - 3),
{
    let n = rows.len();
    let before = no_spikes(rows, s, limit, (n - 3) as nat);
    reveal_with_fuel(no_spikes, 4);
    let all = no_spikes(rows, s, limit, n);
    assert(all == before.push(rows[n - 3]).push(rows[n - 2]).push(rows[n - 1]));
    assert(all.skip(all.len() - 3) =~= rows.skip(n - 3));
}

/// The present can never be voted away: whatever history looks like, the three
/// newest samples of a window are the last three that a regression uses.
pub proof fn the_present_is_never_voted_away(window: Seq<Sample>, config: RegressConfig)
    requires
        window.len() >= 3,
    ensures
        ({
            let rows = rows_of(window, config);
            let used = used_rows(window, config);
            used.len() >= 3 && used.skip(used.len() - 3) == rows.skip(rows.len() - 3)
        }),
{
    let rows = rows_of(window, config);
    lemma_regime_is_a_suffix(rows, fit_of(rows), REGIME_PASSES as nat);
    let (regime, line) = current_regime(rows, fit_of(rows), REGIME_PASSES as nat);
    assert(regime.skip(regime.len() - 3) =~= rows.skip(rows.len() - 3));
    let s = sizes(regime, line);
    if regime.len() > 4 && spike_limit(s) is Some {
        lemma_protected_stay(regime, s, spike_limit(s)->Some_0);
    }
}

/// Rows that all have one offset.
pub(crate) open(crate) spec fn flat(rows: Seq<Row>, c: int) -> bool {
    forall|i: int| 0 <= i < rows.len() ==> (#[trigger] rows[i]).offset == c
}

pub(crate) proof fn lemma_flat_fit(rows: Seq<Row>, c: int)
    requires
        total_weight(rows) >= 1,
        flat(rows, c),
        -OFFSET_LIMIT <= c <= OFFSET_LIMIT,
    ensures
        mean_offset(rows) == c,
        fit_of(rows).a == c,
        fit_of(rows).b == 0,
        forall|i: int| 0 <= i < rows.len() ==> residual(#[trigger] rows[i], fit_of(rows)) == 0,
{
    let w = |r: Row| r.w as int;
    let wy = |r: Row| r.w * r.offset;
    let wc = |r: Row| c * w(r);
    let sw = total_weight(rows);
    assert forall|i: int| 0 <= i < rows.len() implies wy(#[trigger] rows[i]) == wc(rows[i]) by {
        let k = rows[i].w as int;
        assert(k * c == c * k) by (nonlinear_arith);
    }
    lemma_sum_le(rows, wy, wc);
    lemma_sum_le(rows, wc, wy);
    lemma_sum_scaled(rows, w, c);
    assert(toward_zero(c * sw, sw) == c) by {
        if c < 0 {
            let d = -c;
            assert(-(c * sw) == d * sw) by (nonlinear_arith)
                requires
                    d == -c,
            ;
            assert(d * sw / sw == d) by (nonlinear_arith)
                requires
                    sw > 0,
            ;
            assert(c * sw < 0) by (nonlinear_arith)
                requires
                    c < 0,
                    sw > 0,
            ;
        } else {
            assert(c * sw / sw == c) by (nonlinear_arith)
                requires
                    sw > 0,
            ;
            assert(c * sw >= 0) by (nonlinear_arith)
                requires
                    c >= 0,
                    sw > 0,
            ;
        }
    }
    let t0 = mean_time(rows);
    let xx = sum_of(rows, |r: Row| r.w * ((r.t - t0) * (r.t - t0)));
    let fxy = |r: Row| r.w * ((r.t - t0) * (r.offset - c));
    let zero = |r: Row| 0int;
    assert forall|i: int| 0 <= i < rows.len() implies fxy(#[trigger] rows[i]) == zero(rows[i]) by {
        let x = rows[i].t - t0;
        let k = rows[i].w as int;
        assert(rows[i].offset - c == 0);
        assert(k * (x * 0) == 0);
    }
    lemma_sum_le(rows, fxy, zero);
    lemma_sum_le(rows, zero, fxy);
    lemma_sum_zero(rows);
    assert(sum_of(rows, fxy) == 0);
    assert(slope(rows, t0, c) == 0) by {
        if xx > 1_000_000 * FULL_WEIGHT {
            assert(0int / xx == 0) by (nonlinear_arith)
                requires
                    xx > 0,
            ;
        }
    }
    let line = fit_of(rows);
    assert forall|i: int| 0 <= i < rows.len() implies residual(#[trigger] rows[i], line) == 0 by {
        let dt = rows[i].t - line.t0;
        assert(0 * dt == 0);
        assert(drift_ps(0, dt) == 0);
    }
}

proof fn lemma_sum_zero(rows: Seq<Row>)
    ensures
        sum_of(rows, |r: Row| 0int) == 0,
    decreases rows.len(),
{
    if rows.len() > 0 {
        lemma_sum_zero(rows.drop_last());
    }
}

/// A window without noise is taken whole.
proof fn lemma_flat_is_kept(rows: Seq<Row>, c: int)
    requires
        rows.len() >= 3,
        total_weight(rows) >= 1,
        flat(rows, c),
        -OFFSET_LIMIT <= c <= OFFSET_LIMIT,
    ensures
        current_regime(rows, fit_of(rows), REGIME_PASSES as nat) == (rows, fit_of(rows)),
        despiked(rows, fit_of(rows)) == (rows, fit_of(rows)),
{
    lemma_flat_fit(rows, c);
    let line = fit_of(rows);
    let s = sizes(rows, line);
    assert forall|i: int| 0 <= i < s.len() implies (#[trigger] s[i]) == 0 by {
        assert(s[i] == size(residual(rows[i], line)) as i128);
    }
    assert(!halves_differ(rows, line)) by {
        let n = rows.len() as int;
        let h = n / 2;
        let f = |r: Row| residual(r, line);
        let zero = |r: Row| 0int;
        assert forall|i: int| 0 <= i < rows.take(h).len() implies f(
            #[trigger] rows.take(h)[i],
        ) == zero(rows.take(h)[i]) by {
            assert(rows.take(h)[i] == rows[i]);
        }
        assert forall|i: int| 0 <= i < rows.skip(h).len() implies f(
            #[trigger] rows.skip(h)[i],
        ) == zero(rows.skip(h)[i]) by {
            assert(rows.skip(h)[i] == rows[h + i]);
        }
        lemma_sum_le(rows.take(h), f, zero);
        lemma_sum_le(rows.take(h), zero, f);
        lemma_sum_le(rows.skip(h), f, zero);
        lemma_sum_le(rows.skip(h), zero, f);
        lemma_sum_zero(rows.take(h));
        lemma_sum_zero(rows.skip(h));
        assert(0 * (n - h) - 0 * h == 0);
        let noise = 44_478 * median(s);
        let scale = if noise > 30_000_000 {
            noise
        } else {
            30_000_000
        };
        assert(h * (n - h) * scale >= 0) by (nonlinear_arith)
            requires
                0 <= h <= n,
                scale >= 0,
        ;
    }
    assert(current_regime(rows, line, REGIME_PASSES as nat) == (rows, line));
    lemma_largest_of_zeros(
        s.take(
            if s.len() > PROTECTED_ROWS {
                s.len() - PROTECTED_ROWS
            } else {
                0
            },
        ),
    );
}

proof fn lemma_largest_of_zeros(s: Seq<i128>)
    requires
        forall|i: int| 0 <= i < s.len() ==> (#[trigger] s[i]) == 0,
    ensures
        largest(s) == 0,
    decreases s.len(),
{
    if s.len() > 0 {
        assert forall|i: int| 0 <= i < s.drop_last().len() implies (
        #[trigger] s.drop_last()[i]) == 0 by {
            assert(s.drop_last()[i] == s[i]);
        }
        lemma_largest_of_zeros(s.drop_last());
        assert(s.last() == s[s.len() - 1]);
    }
}

/// A source that keeps saying the same is believed: where every sample has one
/// offset, every sample is used, the estimate is that offset at any time, there
/// is no frequency error, and no dispersion.
pub proof fn a_steady_source_is_believed(
    window: Seq<Sample>,
    config: RegressConfig,
    now: u64,
    est: RegressEstimate,
    c: int,
)
    requires
        3 <= window.len() <= MAX_ROWS,
        forall|i: int| 0 <= i < window.len() ==> (#[trigger] window[i]).offset == c,
        -OFFSET_LIMIT <= c <= OFFSET_LIMIT,
        is_regression(window, config, now, est),
    ensures
        est.n_used == window.len(),
        est.offset == c,
        est.freq_ppq is Some ==> est.freq_ppq == Some(0i64),
        est.offset_sd == 0,
{
    let rows = rows_of(window, config);
    lemma_rows_fit(window, config);
    assert(flat(rows, c)) by {
        assert forall|i: int| 0 <= i < rows.len() implies (#[trigger] rows[i]).offset == c by {
            assert(window[i].offset == c);
        }
    }
    lemma_flat_is_kept(rows, c);
    lemma_flat_estimate(window, config, now, est, rows, c);
}

/// What a regression comes to where the rows it uses all have one offset.
pub(crate) proof fn lemma_flat_estimate(
    window: Seq<Sample>,
    config: RegressConfig,
    now: u64,
    est: RegressEstimate,
    rows: Seq<Row>,
    c: int,
)
    requires
        used_fit(window, config) == (rows, fit_of(rows)),
        3 <= rows.len() <= MAX_ROWS,
        total_weight(rows) >= 1,
        flat(rows, c),
        -OFFSET_LIMIT <= c <= OFFSET_LIMIT,
        is_regression(window, config, now, est),
    ensures
        est.n_used == rows.len(),
        est.offset == c,
        est.freq_ppq is Some ==> est.freq_ppq == Some(0i64),
        est.offset_sd == 0,
{
    let min = least_delay(window) as int;
    lemma_flat_fit(rows, c);
    let line = fit_of(rows);
    let floor = offset_floor(rows, min, config);
    let sharp = offset_rows(rows, min, config, now);
    lemma_youngest(rows, now);
    lemma_reweighted(rows, min, floor, now, config.halflife, youngest(rows, now));
    assert(flat(sharp, c)) by {
        assert forall|i: int| 0 <= i < sharp.len() implies (#[trigger] sharp[i]).offset == c by {
            assert(sharp[i].offset == rows[i].offset);
        }
    }
    lemma_flat_fit(sharp, c);
    let ahead = now - mean_time(sharp);
    assert(0 * ahead == 0);
    assert(drift_ps(0, ahead) == 0);
    let on = now - line.t0;
    assert(0 * on == 0);
    assert(drift_ps(0, on) == 0);
    let fr = |r: Row| r.w * (residual(r, line) * residual(r, line));
    let zero = |r: Row| 0int;
    assert forall|i: int| 0 <= i < rows.len() implies fr(#[trigger] rows[i]) == zero(rows[i]) by {
        assert(residual(rows[i], line) == 0);
        let k = rows[i].w as int;
        assert(k * (0 * 0) == 0);
    }
    lemma_sum_le(rows, fr, zero);
    lemma_sum_le(rows, zero, fr);
    lemma_sum_zero(rows);
    assert(square_sum(rows, line) == 0);
    let n = rows.len() as int;
    let freedom = if n > 3 {
        n - 2
    } else {
        1
    };
    let d = total_weight(rows) * freedom;
    assert(d > 0) by (nonlinear_arith)
        requires
            d == total_weight(rows) * freedom,
            total_weight(rows) > 0,
            freedom > 0,
    ;
    let sd = est.offset_sd as int;
    let ss = square_sum(rows, line);
    assert(ss * n == 0) by (nonlinear_arith)
        requires
            ss == 0,
    ;
    assert(sd == 0) by (nonlinear_arith)
        requires
            sd * sd * d <= 0,
            d > 0,
            sd >= 0,
    ;
}

/// Waiting changes no weight: once every sample lies in the past, how they count
/// against each other in the offset does not depend on when it is asked for.
pub proof fn waiting_changes_no_weight(
    used: Seq<Row>,
    min_delay: int,
    config: RegressConfig,
    now: u64,
    later: u64,
)
    requires
        used.len() > 0,
        now <= later,
        forall|i: int| 0 <= i < used.len() ==> (#[trigger] used[i]).t <= now,
    ensures
        offset_rows(used, min_delay, config, later) == offset_rows(used, min_delay, config, now),
{
    lemma_youngest(used, now);
    lemma_youngest(used, later);
    let i = choose|i: int|
        0 <= i < used.len() && youngest(used, now) == age_of(now, (#[trigger] used[i]).t);
    let j = choose|j: int|
        0 <= j < used.len() && youngest(used, later) == age_of(later, (#[trigger] used[j]).t);
    assert(used[i].t <= now && used[j].t <= now);
    assert(youngest(used, later) <= age_of(later, used[i].t));
    assert(youngest(used, now) <= age_of(now, used[j].t));
    assert(youngest(used, later) - youngest(used, now) == later - now);
    let a = offset_rows(used, min_delay, config, now);
    let b = offset_rows(used, min_delay, config, later);
    assert forall|k: int| 0 <= k < used.len() implies #[trigger] a[k] == b[k] by {
        assert(used[k].t <= now);
        assert(age_of(later, used[k].t) - youngest(used, later) == age_of(now, used[k].t)
            - youngest(used, now));
    }
    assert(a =~= b);
}

} // verus!
