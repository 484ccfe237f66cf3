//! What the loops around the clock are for: every source is asked when it is due,
//! what it says reaches selection as it said it, only the selected one moves the
//! clock, and what is reported is what is.

use vstd::arithmetic::power::{lemma_pow0, lemma_pow1, lemma_pow_adds, lemma_pow_increases, lemma_pow_positive, pow};
use vstd::arithmetic::power2::{lemma2_to64, lemma_pow2_pos, lemma_pow2_unfold, pow2};
use vstd::prelude::*;

use crate::client::{ChangeVerdict, ControllerStep, Estimate, MultiController};
use crate::control::{nearest_log2, row_of, rows_shown, stats_of, TrackingState};
use crate::exchange::{estimates_of, Measurement, SourceStatus};
use crate::ntp::NtpPacket;
use crate::policy::{ClientRecord, TableState};
use crate::query::{added, QueryReport};
use crate::sync_loop::{
    decision_on, earliest_due, ended, is_selected, missed, next_after, refused_after, seconds_log2,
    statuses, taken_in, unpolled, whole_ns, Decision, SourceState, SyncLoop,
};

verus! {

proof fn lemma_earliest(sources: Seq<SourceState>, n: nat)
    requires
        n <= sources.len(),
    ensures
        earliest_due(sources, n) is Some <==> n > 0,
        n > 0 ==> (forall|i: int|
            0 <= i < n ==> earliest_due(sources, n)->Some_0 <= (#[trigger] sources[i]).due) && (
        exists|i: int| 0 <= i < n && earliest_due(sources, n)->Some_0 == (#[trigger] sources[i]).due),
    decreases n,
{
    if n > 0 {
        lemma_earliest(sources, (n - 1) as nat);
        if n > 1 {
            let i = choose|i: int|
                0 <= i < n - 1 && earliest_due(sources, (n - 1) as nat)->Some_0 == (
                #[trigger] sources[i]).due;
            assert(sources[i].due == earliest_due(sources, (n - 1) as nat)->Some_0);
        }
        assert(sources[n - 1].due == sources[n - 1].due);
    }
}

/// Nothing is slept through: the loop waits for half a second at most, not at all
/// where a source is due, and otherwise never past the time at which one is, nor past
/// the end of a running drain that is to be ended; and it waits that half second unless
/// one of these comes first.
pub proof fn nothing_is_slept_through(l: SyncLoop, now: u64)
    requires
        l.sources@.len() >= 1,
    ensures
        0 <= l.wait_at(now) <= 500_000_000,
        (exists|i: int| 0 <= i < l.sources@.len() && (#[trigger] l.sources@[i]).due <= now)
            <==> l.wait_at(now) == 0,
        forall|i: int|
            0 <= i < l.sources@.len() && (#[trigger] l.sources@[i]).due > now ==> now + l.wait_at(
                now,
            ) <= l.sources@[i].due,
        l.stop_drains && l.controller.books.completes_at() is Some
            && l.controller.books.completes_at()->Some_0 > now ==> now + l.wait_at(now)
            <= l.controller.books.completes_at()->Some_0,
        l.wait_at(now) == 500_000_000 || (exists|i: int|
            0 <= i < l.sources@.len() && (#[trigger] l.sources@[i]).due <= now + l.wait_at(now)) || (
        l.controller.books.completes_at() is Some && l.controller.books.completes_at()->Some_0
            == now + l.wait_at(now)),
{
    lemma_earliest(l.sources@, l.sources@.len());
    let t = earliest_due(l.sources@, l.sources@.len())->Some_0;
    let k = choose|k: int| 0 <= k < l.sources@.len() && t == (#[trigger] l.sources@[k]).due;
    assert(l.sources@[k].due == t);
}

/// A loop runs as long as it is told to, and for ever where it is told nothing.
pub proof fn a_run_lasts_as_long_as_told(l: SyncLoop, now: u64)
    ensures
        l.run_ns == 0 ==> !l.over_at(now),
        l.run_ns > 0 ==> (l.over_at(now) <==> now - l.started >= l.run_ns),
{
}

/// The tenth refusal in a row ends the process, and no other answer of the clock does.
pub proof fn the_tenth_refusal_is_the_last(refused: u32, taken: bool)
    ensures
        taken ==> next_after(refused, taken) is Continue && refused_after(refused, taken) == 0,
        !taken ==> (next_after(refused, taken) is GiveUp <==> refused >= 9),
        !taken && refused < u32::MAX ==> refused_after(refused, taken) == refused + 1,
{
}

/// What is planned is what is applied: the very command, unless nothing is to be
/// applied at all or the source was given up on.
pub proof fn the_planned_command_is_applied(step: ControllerStep, dry_run: bool)
    ensures
        decision_on(step, dry_run) is GiveUp <==> step.verdict == ChangeVerdict::GiveUp,
        dry_run ==> !(decision_on(step, dry_run) is Apply),
        !dry_run && step.verdict != ChangeVerdict::GiveUp ==> decision_on(step, dry_run)
            == (Decision::Apply { command: step.plan.command }),
{
}

/// Nanoseconds are a thousand picoseconds, toward zero, sign and all.
pub proof fn a_nanosecond_is_a_thousand_picoseconds(ps: int)
    requires
        -9_000_000_000_000_000_000_000 <= ps <= 9_000_000_000_000_000_000_000,
    ensures
        -1000 < whole_ns(ps) * 1000 - ps < 1000,
        ps >= 0 ==> whole_ns(ps) >= 0,
        ps <= 0 ==> whole_ns(ps) <= 0,
        whole_ns(-ps) == -whole_ns(ps),
{
}

/// An interval of zero is a second, each step up doubles it, as far as it fits, and
/// each step down halves it, rounded down.
pub proof fn intervals_double(log2: int)
    ensures
        seconds_log2(0) == 1_000_000_000,
        0 <= log2 < 34 ==> seconds_log2(log2 + 1) == 2 * seconds_log2(log2),
        log2 <= 0 ==> seconds_log2(log2 - 1) == seconds_log2(log2) / 2,
        log2 > 34 ==> seconds_log2(log2) == u64::MAX,
{
    lemma2_to64();
    if 0 <= log2 < 34 {
        lemma_pow2_unfold((log2 + 1) as nat);
    }
    if log2 <= 0 {
        let n = (-log2) as nat;
        lemma_pow2_unfold(n + 1);
        lemma_pow2_pos(n);
        let p = pow2(n) as int;
        vstd::arithmetic::div_mod::lemma_div_denominator(1_000_000_000, p, 2);
        assert(p * 2 == 2 * p);
        assert(1_000_000_000int / 1 == 1_000_000_000);
    }
}

/// What a source says reaches selection: the source's own offset, sign and all, in
/// nanoseconds, its own distance and stratum; it is asked again after the interval
/// that the plan says, or the loop's own where there is none; and no other source's
/// state changes.
pub proof fn what_a_source_says_reaches_selection(
    before: SyncLoop,
    after: SyncLoop,
    mid: MultiController,
    est: Estimate,
    index: int,
    now: u64,
    stratum: u8,
    root_distance: i64,
    step: Option<ControllerStep>,
)
    requires
        0 <= index < before.sources@.len(),
        taken_in(before, after, mid, est, index, now, stratum, root_distance, step),
        -9_000_000_000_000_000_000_000 <= est.offset <= 9_000_000_000_000_000_000_000,
    ensures
        ({
            let status = after.sources@[index].status;
            let wait = seconds_log2(
                match step {
                    Some(s) => s.plan.next_poll_log2 as int,
                    None => mid.discipline.interval(),
                },
            );
            &&& status.has_estimate
            &&& -1000 < status.offset * 1000 - est.offset < 1000
            &&& est.offset >= 0 ==> status.offset >= 0
            &&& est.offset <= 0 ==> status.offset <= 0
            &&& status.root_distance == root_distance
            &&& status.stratum == stratum
            &&& now + wait <= u64::MAX ==> after.sources@[index].due == now + wait
            &&& before.sources@[index].exchanges < u64::MAX ==> after.sources@[index].exchanges
                == before.sources@[index].exchanges + 1
            &&& after.sources@[index].lost == before.sources@[index].lost
        }),
        after.sources@.len() == before.sources@.len(),
        forall|i: int|
            0 <= i < before.sources@.len() && i != index ==> (#[trigger] after.sources@[i])
                == before.sources@[i],
        step is Some ==> is_selected(statuses(after.sources@), Some(index as usize)),
        step is Some ==> step->Some_0.estimate == est,
{
    a_nanosecond_is_a_thousand_picoseconds(est.offset as int);
    let heard = statuses(before.sources@).update(index, after.sources@[index].status);
    assert(statuses(after.sources@) =~= heard);
}

/// A source that has not been asked yet is due, and says nothing: it counts as
/// unsynchronized, and a second away.
pub proof fn a_new_source_says_nothing(now: u64)
    ensures
        unpolled(now).due == now,
        !unpolled(now).status.has_estimate,
        unpolled(now).status.stratum == 16,
        unpolled(now).status.root_distance == 1_000_000_000,
        unpolled(now).exchanges == 0,
        unpolled(now).lost == 0,
{
}

/// Selection hears every source that has an estimate, under its own number, with the
/// offset, distance and stratum that it has, a nanosecond of distance at least; and
/// none that has not.
pub proof fn selection_hears_every_source(sources: Seq<SourceStatus>, n: nat)
    requires
        n <= sources.len() <= usize::MAX,
    ensures
        forall|i: int|
            0 <= i < n && (#[trigger] sources[i]).has_estimate ==> exists|k: int|
                0 <= k < estimates_of(sources, n).len() && (#[trigger] estimates_of(sources, n)[k]).id
                    == i,
        forall|k: int|
            0 <= k < estimates_of(sources, n).len() ==> {
                let e = #[trigger] estimates_of(sources, n)[k];
                &&& e.id < n
                &&& sources[e.id as int].has_estimate
                &&& e.offset == sources[e.id as int].offset
                &&& e.stratum == sources[e.id as int].stratum
                &&& e.root_distance == if sources[e.id as int].root_distance < 1 {
                    1
                } else {
                    sources[e.id as int].root_distance as int
                }
            },
    decreases n,
{
    if n > 0 {
        let m = (n - 1) as nat;
        selection_hears_every_source(sources, m);
        let before = estimates_of(sources, m);
        let all = estimates_of(sources, n);
        assert forall|i: int| 0 <= i < n && (#[trigger] sources[i]).has_estimate implies exists|k: int|
            0 <= k < all.len() && (#[trigger] all[k]).id == i by {
            if i < m {
                let k = choose|k: int| 0 <= k < before.len() && (#[trigger] before[k]).id == i;
                assert(all[k] == before[k]);
            } else {
                assert(all[all.len() - 1].id == i);
            }
        }
        assert forall|k: int| 0 <= k < all.len() implies {
            let e = #[trigger] all[k];
            &&& e.id < n
            &&& sources[e.id as int].has_estimate
            &&& e.offset == sources[e.id as int].offset
            &&& e.stratum == sources[e.id as int].stratum
            &&& e.root_distance == if sources[e.id as int].root_distance < 1 {
                1
            } else {
                sources[e.id as int].root_distance as int
            }
        } by {
            if k < before.len() {
                assert(all[k] == before[k]);
            }
        }
    }
}

/// What a report claims: it is synchronized as long as the loop says so and has been
/// heard of within four of its intervals, or a minute and four seconds; its bound
/// grows by a tenth of a picosecond for every nanosecond of silence, rounded down;
/// and everything else is as it was published.
pub proof fn a_report_ages(state: TrackingState, now: u64)
    ensures
        ({
            let quiet = if now > state.updated {
                now - state.updated
            } else {
                0
            };
            let r = state.report_at(now);
            &&& r.synchronized <==> state.report.synchronized && (quiet <= 4 * state.poll_interval
                || quiet <= 64_000_000_000)
            &&& r.offset == state.report.offset
            &&& r.freq_ppq == state.report.freq_ppq
            &&& r.poll_log2 == state.report.poll_log2
            &&& r.error_bound is Some <==> state.report.error_bound is Some
            &&& r.error_bound is Some && state.report.error_bound->Some_0 <= u128::MAX / 2 ==> {
                let grown = r.error_bound->Some_0 - state.report.error_bound->Some_0;
                0 <= quiet - 10 * grown < 10
            }
        }),
{
}

/// Each number of a client's row, and of the server's report, is that client's and
/// that server's own.
pub proof fn reports_say_what_is<K>(
    client: (K, ClientRecord),
    table: TableState<K>,
    stratum: u8,
    uptime: u64,
    now: u64,
)
    requires
        table.clients.len() <= usize::MAX,
    ensures
        ({
            let row = row_of(client, now);
            &&& row.client == client.0
            &&& row.requests == client.1.requests
            &&& row.responses == client.1.responses
            &&& row.dropped == client.1.dropped
            &&& row.interleaved == client.1.interleaved_now
            &&& now >= client.1.last_seen ==> row.last_seen_ago == now - client.1.last_seen
        }),
        ({
            let report = stats_of(table, stratum, uptime);
            &&& report.ntp_requests == table.stats.requests
            &&& report.ntp_responses == table.stats.responses
            &&& report.dropped_rate_limit == table.stats.dropped_rate_limit
            &&& report.kiss_of_death == table.stats.kiss_of_death
            &&& report.interleaved_responses == table.stats.interleaved_responses
            &&& report.refused == table.stats.refused
            &&& report.clients_tracked == table.clients.len()
            &&& report.clients_evicted == table.stats.evicted
            &&& report.uptime_s == uptime
            &&& report.stratum == stratum
        }),
{
}

/// A client report shows as many rows as are asked for, where there are as many, and
/// never more than 4096.
pub proof fn a_report_shows_what_is_asked_for(limit: usize, all: nat)
    ensures
        limit <= all && limit <= 4096 ==> rows_shown(limit, all) == limit,
        all <= limit && all <= 4096 ==> rows_shown(limit, all) == all,
        rows_shown(limit, all) <= 4096,
        rows_shown(limit, all) <= all,
        limit >= 4096 && all >= 4096 ==> rows_shown(limit, all) == 4096,
{
}

/// A poll interval of two to the power of `k` seconds is reported as `k`.
pub proof fn a_power_of_two_is_reported_as_itself(k: nat, exponent: int)
    requires
        nearest_log2(1_000_000_000 * pow2(k), exponent),
    ensures
        exponent == k,
{
    let p = pow2(k) as int;
    lemma_pow2_pos(k);
    lemma_square(k);
    let q = pow(4, k);
    let unit: int = 1_000_000_000;
    assert((unit * p) * (unit * p) == 1_000_000_000_000_000_000 * q) by (nonlinear_arith)
        requires
            p * p == q,
            unit == 1_000_000_000,
    ;
    lemma_pow_positive(4, k);
    if exponent >= 0 {
        let e = exponent as nat;
        lemma_pow_positive(4, e);
        if e > k {
            lemma_pow_increases(4, k + 1, e);
            lemma_pow_adds(4, k, 1);
            lemma_pow1(4);
        } else if e < k {
            lemma_pow_increases(4, e + 1, k);
            lemma_pow_adds(4, e, 1);
            lemma_pow1(4);
        }
    } else {
        let e = (-exponent) as nat;
        lemma_pow_increases(4, 1, e);
        lemma_pow1(4);
        let r = pow(4, e);
        assert((1_000_000_000_000_000_000 * q) * r >= 4_000_000_000_000_000_000) by (nonlinear_arith)
            requires
                q >= 1,
                r >= 4,
        ;
    }
}

proof fn lemma_square(k: nat)
    ensures
        pow2(k) * pow2(k) == pow(4, k),
    decreases k,
{
    if k == 0 {
        lemma2_to64();
        lemma_pow0(4);
    } else {
        let j = (k - 1) as nat;
        lemma_square(j);
        lemma_pow2_unfold(k);
        lemma_pow_adds(4, j, 1);
        lemma_pow1(4);
        let p = pow2(j) as int;
        let q = pow(4, j);
        assert((2 * p) * (2 * p) == q * 4) by (nonlinear_arith)
            requires
                p * p == q,
        ;
    }
}

/// A query reports what it measured: offset and delay as the exchange gave them, and
/// what the server said of itself; the sample that it concludes from is the same.
pub proof fn a_query_reports_what_it_measured(
    before: QueryReport,
    after: QueryReport,
    reply: NtpPacket,
    m: Measurement,
    t: int,
)
    requires
        added(before, after, reply, m, t),
        0 <= t <= u64::MAX,
        0 <= m.delay_ps <= i64::MAX,
        before.received_count() < u32::MAX,
        before.window().len() <= 64,
    ensures
        after.received_count() == before.received_count() + 1,
        after.answers().len() == before.answers().len() + 1,
        ({
            let said = after.answers().last();
            &&& said.offset_ps == m.offset_ps
            &&& said.delay_ps == m.delay_ps
            &&& said.stratum == reply.stratum
            &&& said.root_delay == reply.root_delay.0
            &&& said.root_dispersion == reply.root_dispersion.0
        }),
        ({
            let sample = after.window().last();
            &&& sample.t == t
            &&& sample.offset == m.offset_ps
            &&& sample.delay == m.delay_ps
            &&& sample.dispersion == m.dispersion_ps
        }),
        after.window().len() == if before.window().len() < 64 {
            before.window().len() + 1
        } else {
            64
        },
{
}

/// A lost reply is waited out: it is counted, the source is asked again an interval later,
/// and what it said before stands.
pub proof fn a_lost_reply_is_waited_out(source: SourceState, now: u64, interval: int)
    requires
        0 <= interval <= 34,
    ensures
        ({
            let next = missed(source, now, interval);
            let wait = 1_000_000_000 * pow2(interval as nat);
            &&& source.lost < u64::MAX ==> next.lost == source.lost + 1
            &&& now + wait <= u64::MAX ==> next.due == now + wait
            &&& next.status == source.status
            &&& next.exchanges == source.exchanges
        }),
{
}

/// A run that was to change the clock and never did ends in failure, and no other.
pub proof fn a_run_that_changed_nothing_failed(dry_run: bool, applied_any: bool)
    ensures
        ended(dry_run, applied_any) != 0 <==> !dry_run && !applied_any,
        0 <= ended(dry_run, applied_any) <= 1,
{
}

} // verus!
