//! What holds of the client table over whole runs of requests: the two rate
//! ceilings, the Kiss-o'-Death leak, the order of eviction, and what
//! interleaved mode can report.

use vstd::prelude::*;

use crate::ntp::NtpTimestamp;
use crate::policy::{
    balanced, charged, distinct, elapsed_ns, known, lemma_config_bounds, place, record_of, refilled,
    without, ClientRecord, Disposition, RateLimitConfig, ResponseMode, TableState, GLOBAL_COST,
};

verus! {

/// The table after a run of requests, each a client and the time it asked.
pub open spec fn after<K>(start: TableState<K>, requests: Seq<(K, u64)>) -> TableState<K>
    decreases requests.len(),
{
    if requests.len() == 0 {
        start
    } else {
        let last = requests.last();
        after(start, requests.drop_last()).admitted(last.0, last.1)
    }
}

/// What became of request number `i` of a run.
pub open spec fn outcome<K>(start: TableState<K>, requests: Seq<(K, u64)>, i: int) -> Disposition {
    after(start, requests.take(i)).disposition(requests[i].0, requests[i].1)
}

/// How many requests of a run satisfy `counts`.
pub open spec fn tally<K>(requests: Seq<(K, u64)>, counts: spec_fn(int) -> bool) -> nat
    decreases requests.len(),
{
    if requests.len() == 0 {
        0
    } else {
        tally(requests.drop_last(), counts) + if counts(requests.len() - 1) {
            1nat
        } else {
            0
        }
    }
}

/// Whether the times of a run never go back, from `from` on.
pub open spec fn in_order<K>(from: u64, requests: Seq<(K, u64)>) -> bool {
    &&& forall|i: int| 0 <= i < requests.len() ==> from <= (#[trigger] requests[i]).1
    &&& forall|i: int, j: int|
        0 <= i <= j < requests.len() ==> (#[trigger] requests[i]).1 <= (#[trigger] requests[j]).1
}

/// The answers of a run, whoever they went to.
pub open spec fn answers<K>(start: TableState<K>, requests: Seq<(K, u64)>) -> nat {
    tally(requests, |i: int| outcome(start, requests, i) is Respond)
}

proof fn lemma_tally_same<K>(
    requests: Seq<(K, u64)>,
    a: spec_fn(int) -> bool,
    b: spec_fn(int) -> bool,
)
    requires
        forall|i: int| 0 <= i < requests.len() ==> #[trigger] a(i) == b(i),
    ensures
        tally(requests, a) == tally(requests, b),
    decreases requests.len(),
{
    if requests.len() > 0 {
        lemma_tally_same(requests.drop_last(), a, b);
        assert(a(requests.len() - 1) == b(requests.len() - 1));
    }
}

proof fn lemma_outcome_of_prefix<K>(start: TableState<K>, requests: Seq<(K, u64)>, i: int)
    requires
        0 <= i < requests.len() - 1,
    ensures
        outcome(start, requests.drop_last(), i) == outcome(start, requests, i),
{
    assert(requests.drop_last().take(i) =~= requests.take(i));
}

proof fn lemma_answers_step<K>(start: TableState<K>, requests: Seq<(K, u64)>)
    requires
        requests.len() > 0,
    ensures
        answers(start, requests) == answers(start, requests.drop_last()) + if after(
            start,
            requests.drop_last(),
        ).disposition(requests.last().0, requests.last().1) is Respond {
            1nat
        } else {
            0
        },
{
    let shorter = requests.drop_last();
    assert(requests.take(requests.len() - 1) =~= shorter);
    let a = |i: int| outcome(start, requests, i) is Respond;
    let b = |i: int| outcome(start, shorter, i) is Respond;
    assert forall|i: int| 0 <= i < shorter.len() implies #[trigger] a(i) == b(i) by {
        lemma_outcome_of_prefix(start, requests, i);
    }
    lemma_tally_same(shorter, a, b);
}

proof fn lemma_refill_bound(level: nat, elapsed: nat, gain: nat, cap: nat)
    ensures
        refilled(level, elapsed, gain, cap) <= level + elapsed * gain || refilled(
            level,
            elapsed,
            gain,
            cap,
        ) <= cap,
        level <= cap ==> refilled(level, elapsed, gain, cap) <= level + elapsed * gain,
{
    assert(elapsed * gain >= 0) by (nonlinear_arith)
        requires
            elapsed >= 0,
            gain >= 0,
    ;
}

/// However the address space is shuffled, the answers of a run stay within the
/// global burst plus what the global rate earns over its length.
pub proof fn global_ceiling_holds<K>(start: TableState<K>, requests: Seq<(K, u64)>, from: u64)
    requires
        start.config.global_rate_nhz > 0,
        start.global_tokens <= start.config.global_cap(),
        in_order(from, requests),
        start.global_last is Some ==> start.global_last == Some(from),
        requests.len() > 0,
    ensures
        answers(start, requests) * GLOBAL_COST <= start.global_tokens
            + start.config.global_rate_nhz * (requests.last().1 - from),
{
    lemma_global_ceiling(start, requests, from);
}

proof fn lemma_global_ceiling<K>(start: TableState<K>, requests: Seq<(K, u64)>, from: u64)
    requires
        start.config.global_rate_nhz > 0,
        start.global_tokens <= start.config.global_cap(),
        in_order(from, requests),
        start.global_last is Some ==> start.global_last == Some(from),
    ensures
        ({
            let end = after(start, requests);
            let until = if requests.len() == 0 { from } else { requests.last().1 };
            &&& end.config == start.config
            &&& requests.len() > 0 ==> end.global_last == Some(until)
            &&& requests.len() == 0 ==> end == start
            &&& end.global_tokens <= end.config.global_cap()
            &&& end.global_tokens + answers(start, requests) * GLOBAL_COST <= start.global_tokens
                + start.config.global_rate_nhz * (until - from)
        }),
    decreases requests.len(),
{
    if requests.len() > 0 {
        let shorter = requests.drop_last();
        let last = requests.last();
        assert(in_order(from, shorter)) by {
            assert forall|i: int| 0 <= i < shorter.len() implies from <= (#[trigger] shorter[i]).1 by {
                assert(shorter[i] == requests[i]);
            }
            assert forall|i: int, j: int| 0 <= i <= j < shorter.len() implies (
            #[trigger] shorter[i]).1 <= (#[trigger] shorter[j]).1 by {
                assert(shorter[i] == requests[i] && shorter[j] == requests[j]);
            }
        }
        lemma_global_ceiling(start, shorter, from);
        lemma_answers_step(start, requests);
        let mid = after(start, shorter);
        let before = if shorter.len() == 0 { from } else { shorter.last().1 };
        let rate = start.config.global_rate_nhz as int;
        if shorter.len() > 0 {
            assert(shorter.last() == requests[shorter.len() - 1]);
        }
        assert(before <= last.1);
        let gained: nat = match mid.global_last {
            None => 0,
            Some(l) => elapsed_ns(l, last.1),
        };
        assert(gained <= last.1 - before);
        lemma_refill_bound(mid.global_tokens, gained, rate as nat, mid.config.global_cap());
        assert(mid.global_level(last.1) <= mid.global_tokens + gained * rate);
        assert(gained * rate + rate * (before - from) <= rate * (last.1 - from))
            by (nonlinear_arith)
            requires
                gained <= last.1 - before,
                rate >= 0,
        ;
        let n = answers(start, shorter);
        assert((n + 1) * GLOBAL_COST == n * GLOBAL_COST + GLOBAL_COST) by (nonlinear_arith);
    } else {
        assert(start.config.global_rate_nhz * (from - from) == 0) by (nonlinear_arith);
    }
}

/// What one request does to the records of the table.
pub proof fn admitting_touches_one_record<K>(s: TableState<K>, key: K, now: u64, other: K)
    requires
        distinct(s.clients),
        s.capacity >= 1,
    ensures
        ({
            let t = s.admitted(key, now);
            &&& distinct(t.clients)
            &&& s.refused_globally(now) ==> t.clients == s.clients
            &&& !s.refused_globally(now) ==> known(t.clients, key) && record_of(t.clients, key)
                == charged(s.charged_record(key, now), now, s.config).0
            &&& other != key && known(t.clients, other) ==> known(s.clients, other) && record_of(
                t.clients,
                other,
            ) == record_of(s.clients, other)
        }),
{
    let t = s.admitted(key, now);
    if !s.refused_globally(now) {
        let record = charged(s.charged_record(key, now), now, s.config).0;
        let others = without(s.clients, key);
        let p = place(s.clients, key);
        let rest = if s.evicts(key) { others.drop_last() } else { others };
        assert(t.clients == seq![(key, record)] + rest);
        if known(s.clients, key) {
            assert(0 <= p < s.clients.len() && s.clients[p].0 == key);
        }
        assert forall|q: int| 0 <= q < rest.len() implies exists|o: int|
            0 <= o < s.clients.len() && s.clients[o] == #[trigger] rest[q] && (known(s.clients, key)
                ==> o == if q < p {
                q
            } else {
                q + 1
            }) && (!known(s.clients, key) ==> o == q) by {
            let o = if known(s.clients, key) && q >= p { q + 1 } else { q };
            assert(s.clients[o] == rest[q]);
        }
        assert forall|q: int| 0 <= q < rest.len() implies (#[trigger] rest[q]).0 != key by {
            let o = if known(s.clients, key) && q >= p { q + 1 } else { q };
            assert(s.clients[o] == rest[q]);
            if s.clients[o].0 == key {
                assert(known(s.clients, key));
                assert(o == p);
            }
        }
        assert forall|i: int, j: int|
            0 <= i < t.clients.len() && 0 <= j < t.clients.len() && (#[trigger] t.clients[i]).0 == (
            #[trigger] t.clients[j]).0 implies i == j by {
            if i > 0 && j > 0 {
                let a = if known(s.clients, key) && i - 1 >= p { i } else { i - 1 };
                let b = if known(s.clients, key) && j - 1 >= p { j } else { j - 1 };
                assert(s.clients[a] == rest[i - 1]);
                assert(s.clients[b] == rest[j - 1]);
            } else if i > 0 {
                assert(rest[i - 1].0 != key);
            } else if j > 0 {
                assert(rest[j - 1].0 != key);
            }
        }
        assert(t.clients[0].0 == key);
        assert(place(t.clients, key) == 0);
        if other != key && known(t.clients, other) {
            let q = place(t.clients, other);
            assert(q > 0);
            let o = if known(s.clients, key) && q - 1 >= p { q } else { q - 1 };
            assert(s.clients[o] == rest[q - 1]);
            assert(s.clients[o].0 == other);
            assert(place(s.clients, other) == o);
        }
    }
}

/// Where a full table makes room, the client that leaves is the one least
/// recently seen; everyone else stays, in the order they had.
pub proof fn eviction_takes_the_stalest<K>(s: TableState<K>, key: K, now: u64)
    requires
        distinct(s.clients),
        s.capacity >= 1,
        s.evicts(key),
        !s.refused_globally(now),
    ensures
        s.admitted(key, now).clients.drop_first() == s.clients.drop_last(),
        !known(s.admitted(key, now).clients, s.clients.last().0),
        s.admitted(key, now).clients.len() == s.clients.len(),
{
    let t = s.admitted(key, now);
    assert(t.clients.drop_first() =~= s.clients.drop_last());
    let gone = s.clients.last().0;
    if known(t.clients, gone) {
        let q = place(t.clients, gone);
        assert(t.clients[q].0 == gone);
        if q > 0 {
            assert(t.clients[q] == s.clients[q - 1]);
            assert(s.clients[q - 1].0 == s.clients[s.clients.len() - 1].0);
        } else {
            assert(known(s.clients, key));
        }
    }
}

/// A request leaves the others where they are in the recency order.
pub proof fn asking_moves_only_oneself<K>(s: TableState<K>, key: K, now: u64)
    requires
        distinct(s.clients),
        s.capacity >= 1,
        !s.evicts(key),
        !s.refused_globally(now),
    ensures
        s.admitted(key, now).clients[0].0 == key,
        s.admitted(key, now).clients.drop_first() == without(s.clients, key),
{
    assert(s.admitted(key, now).clients.drop_first() =~= without(s.clients, key));
}

/// The answers of a run that went to `key` on its own account.
pub open spec fn answers_to<K>(start: TableState<K>, requests: Seq<(K, u64)>, key: K) -> nat {
    tally(requests, |i: int| requests[i].0 == key && outcome(start, requests, i) is Respond)
}

/// Whether a request of a run was charged to `key`'s own bucket and dropped,
/// with or without a Kiss-o'-Death.
pub open spec fn dropped_by_own_limit<K>(
    start: TableState<K>,
    requests: Seq<(K, u64)>,
    key: K,
    i: int,
) -> bool {
    &&& requests[i].0 == key
    &&& !after(start, requests.take(i)).refused_globally(requests[i].1)
    &&& !(outcome(start, requests, i) is Respond)
}

/// The drops of a run that were `key`'s own.
pub open spec fn own_drops<K>(start: TableState<K>, requests: Seq<(K, u64)>, key: K) -> nat {
    tally(requests, |i: int| dropped_by_own_limit(start, requests, key, i))
}

/// The Kiss-o'-Death replies of a run that were `key`'s own.
pub open spec fn own_kisses<K>(start: TableState<K>, requests: Seq<(K, u64)>, key: K) -> nat {
    tally(
        requests,
        |i: int|
            dropped_by_own_limit(start, requests, key, i) && outcome(start, requests, i)
                is KissOfDeath,
    )
}

/// Whether `key` stays in the table throughout a run.
pub open spec fn stays<K>(start: TableState<K>, requests: Seq<(K, u64)>, key: K) -> bool {
    forall|i: int|
        0 <= i <= requests.len() ==> known((#[trigger] after(start, requests.take(i))).clients, key)
}

proof fn lemma_counts_step<K>(start: TableState<K>, requests: Seq<(K, u64)>, key: K)
    requires
        requests.len() > 0,
    ensures
        ({
            let n = requests.len() - 1;
            let shorter = requests.drop_last();
            let last = requests.last();
            let mid = after(start, shorter);
            let mine = last.0 == key && !mid.refused_globally(last.1);
            let d = mid.disposition(last.0, last.1);
            &&& answers_to(start, requests, key) == answers_to(start, shorter, key) + if last.0
                == key && d is Respond {
                1nat
            } else {
                0
            }
            &&& own_drops(start, requests, key) == own_drops(start, shorter, key) + if mine && !(
            d is Respond) {
                1nat
            } else {
                0
            }
            &&& own_kisses(start, requests, key) == own_kisses(start, shorter, key) + if mine
                && d is KissOfDeath {
                1nat
            } else {
                0
            }
        }),
{
    let n = requests.len() - 1;
    let shorter = requests.drop_last();
    assert(requests.take(n) =~= shorter);
    let a1 = |i: int| requests[i].0 == key && outcome(start, requests, i) is Respond;
    let a2 = |i: int| shorter[i].0 == key && outcome(start, shorter, i) is Respond;
    let b1 = |i: int| dropped_by_own_limit(start, requests, key, i);
    let b2 = |i: int| dropped_by_own_limit(start, shorter, key, i);
    let c1 = |i: int|
        dropped_by_own_limit(start, requests, key, i) && outcome(start, requests, i) is KissOfDeath;
    let c2 = |i: int|
        dropped_by_own_limit(start, shorter, key, i) && outcome(start, shorter, i) is KissOfDeath;
    assert forall|i: int| 0 <= i < n implies #[trigger] a1(i) == a2(i) by {
        lemma_outcome_of_prefix(start, requests, i);
    }
    assert forall|i: int| 0 <= i < n implies #[trigger] b1(i) == b2(i) by {
        lemma_outcome_of_prefix(start, requests, i);
        assert(shorter.take(i) =~= requests.take(i));
    }
    assert forall|i: int| 0 <= i < n implies #[trigger] c1(i) == c2(i) by {
        lemma_outcome_of_prefix(start, requests, i);
        assert(shorter.take(i) =~= requests.take(i));
    }
    lemma_tally_same(shorter, a1, a2);
    lemma_tally_same(shorter, b1, b2);
    lemma_tally_same(shorter, c1, c2);
}

/// A client that stays in the table is answered no more than its bucket held
/// plus what its rate earned since it was last seen.
pub proof fn client_ceiling_holds<K>(start: TableState<K>, requests: Seq<(K, u64)>, key: K)
    requires
        distinct(start.clients),
        start.capacity >= 1,
        stays(start, requests, key),
        record_of(start.clients, key).fits(start.config),
        in_order(record_of(start.clients, key).last_seen, requests),
        requests.len() > 0,
    ensures
        answers_to(start, requests, key) * start.config.cost() <= record_of(
            start.clients,
            key,
        ).tokens + start.config.gain() * (requests.last().1 - record_of(
            start.clients,
            key,
        ).last_seen),
{
    lemma_client_run(start, requests, key);
    let first = record_of(start.clients, key).last_seen;
    let seen = record_of(after(start, requests).clients, key).last_seen;
    let gain = start.config.gain() as int;
    assert(gain * (seen - first) <= gain * (requests.last().1 - first)) by (nonlinear_arith)
        requires
            gain >= 0,
            seen <= requests.last().1,
    ;
}

/// A client that stays in the table gets at most one Kiss-o'-Death for every
/// 2^leak_shift of its requests that were dropped.
pub proof fn kisses_leak_slowly<K>(start: TableState<K>, requests: Seq<(K, u64)>, key: K)
    requires
        distinct(start.clients),
        start.capacity >= 1,
        stays(start, requests, key),
        record_of(start.clients, key).fits(start.config),
        in_order(record_of(start.clients, key).last_seen, requests),
    ensures
        own_kisses(start, requests, key) * start.config.period() <= own_drops(start, requests, key)
            + record_of(start.clients, key).drops_since_kod,
{
    lemma_client_run(start, requests, key);
}

proof fn lemma_client_run<K>(start: TableState<K>, requests: Seq<(K, u64)>, key: K)
    requires
        distinct(start.clients),
        start.capacity >= 1,
        stays(start, requests, key),
        record_of(start.clients, key).fits(start.config),
        in_order(record_of(start.clients, key).last_seen, requests),
    ensures
        ({
            let end = after(start, requests);
            let a = record_of(start.clients, key);
            let b = record_of(end.clients, key);
            &&& end.config == start.config
            &&& end.capacity == start.capacity
            &&& distinct(end.clients)
            &&& known(end.clients, key)
            &&& b.fits(end.config)
            &&& a.last_seen <= b.last_seen
            &&& requests.len() > 0 ==> b.last_seen <= requests.last().1
            &&& requests.len() == 0 ==> b == a
            &&& b.tokens + answers_to(start, requests, key) * start.config.cost() <= a.tokens
                + start.config.gain() * (b.last_seen - a.last_seen)
            &&& b.drops_since_kod + own_kisses(start, requests, key) * start.config.period()
                == own_drops(start, requests, key) + a.drops_since_kod
        }),
    decreases requests.len(),
{
    let a = record_of(start.clients, key);
    let config = start.config;
    if requests.len() == 0 {
        assert(requests.take(0) =~= requests);
        assert(known(after(start, requests.take(0)).clients, key));
        assert(config.gain() * (a.last_seen - a.last_seen) == 0) by (nonlinear_arith);
        assert(0 * config.cost() == 0) by (nonlinear_arith);
        assert(0 * config.period() == 0) by (nonlinear_arith);
    } else {
        let n = requests.len() - 1;
        let shorter = requests.drop_last();
        let last = requests.last();
        assert forall|i: int| 0 <= i <= shorter.len() implies known(
            (#[trigger] after(start, shorter.take(i))).clients,
            key,
        ) by {
            assert(shorter.take(i) =~= requests.take(i));
            assert(known(after(start, requests.take(i)).clients, key));
        }
        assert(in_order(a.last_seen, shorter)) by {
            assert forall|i: int| 0 <= i < shorter.len() implies a.last_seen <= (
            #[trigger] shorter[i]).1 by {
                assert(shorter[i] == requests[i]);
            }
            assert forall|i: int, j: int| 0 <= i <= j < shorter.len() implies (
            #[trigger] shorter[i]).1 <= (#[trigger] shorter[j]).1 by {
                assert(shorter[i] == requests[i] && shorter[j] == requests[j]);
            }
        }
        lemma_client_run(start, shorter, key);
        lemma_counts_step(start, requests, key);
        let mid = after(start, shorter);
        let m = record_of(mid.clients, key);
        let end = after(start, requests);
        assert(requests.take(requests.len() as int) =~= requests);
        assert(known(after(start, requests.take(requests.len() as int)).clients, key));
        admitting_touches_one_record(mid, last.0, last.1, key);
        if shorter.len() > 0 {
            assert(shorter.last() == requests[n - 1]);
            assert(m.last_seen <= last.1);
        } else {
            assert(requests[0] == last);
        }
        if last.0 == key && !mid.refused_globally(last.1) {
            assert(mid.charged_record(key, last.1) == m);
            lemma_charge_step(m, last.1, config);
            let b = record_of(end.clients, key);
            let k = answers_to(start, shorter, key);
            let gain = config.gain() as int;
            assert(gain * (b.last_seen - m.last_seen) + gain * (m.last_seen - a.last_seen) == gain
                * (b.last_seen - a.last_seen)) by (nonlinear_arith);
            let cost = config.cost() as int;
            assert((k + 1) * cost == k * cost + cost) by (nonlinear_arith);
            let kisses = own_kisses(start, shorter, key);
            let period = config.period() as int;
            assert((kisses + 1) * period == kisses * period + period) by (nonlinear_arith);
        } else {
            assert(record_of(end.clients, key) == m);
        }
    }
}

/// One charge against a client's bucket: what it holds afterwards, with the
/// response paid for, is no more than it held and earned.
proof fn lemma_charge_step(m: ClientRecord, now: u64, config: RateLimitConfig)
    requires
        m.fits(config),
        m.last_seen <= now,
    ensures
        ({
            let (b, d) = charged(m, now, config);
            &&& b.fits(config)
            &&& b.last_seen == now
            &&& b.tokens + (if d is Respond {
                config.cost()
            } else {
                0
            }) <= m.tokens + config.gain() * (now - m.last_seen)
            &&& d is Respond ==> b.drops_since_kod == m.drops_since_kod
            &&& d is Drop ==> b.drops_since_kod == m.drops_since_kod + 1
            &&& d is KissOfDeath ==> b.drops_since_kod == 0 && m.drops_since_kod + 1
                == config.period()
        }),
{
    lemma_config_bounds(config);
    let elapsed = elapsed_ns(m.last_seen, now);
    assert(elapsed == now - m.last_seen);
    lemma_refill_bound(m.tokens as nat, elapsed, config.gain(), config.client_cap());
    assert(elapsed * config.gain() == config.gain() * (now - m.last_seen)) by (nonlinear_arith)
        requires
            elapsed == now - m.last_seen,
    ;
}

/// Interleaved mode reports the truth: a client that echoes the receive
/// timestamp of our last response to it is given the time that response left,
/// and one that echoes anything else is answered in basic mode.
pub proof fn interleaved_reports_the_named_response<K>(
    s: TableState<K>,
    key: K,
    receive: NtpTimestamp,
    sent: NtpTimestamp,
    transmit: NtpTimestamp,
    origin: NtpTimestamp,
)
    requires
        distinct(s.clients),
        known(s.clients, key),
    ensures
        s.response_noted(key, receive, sent).transmit_noted(key, transmit).mode(key, origin)
            == if origin == sent && origin.0 != 0 {
            ResponseMode::Interleaved { prev_transmit: transmit }
        } else {
            ResponseMode::Basic
        },
{
    let p = place(s.clients, key);
    let a = s.response_noted(key, receive, sent);
    assert(a.clients[p].0 == key);
    assert forall|i: int| 0 <= i < a.clients.len() && (#[trigger] a.clients[i]).0 == key implies i
        == p by {
        assert(s.clients[i].0 == key);
    }
    assert(place(a.clients, key) == p);
    let b = a.transmit_noted(key, transmit);
    assert(b.clients[p].0 == key);
    assert forall|i: int| 0 <= i < b.clients.len() && (#[trigger] b.clients[i]).0 == key implies i
        == p by {
        assert(a.clients[i].0 == key);
    }
    assert(place(b.clients, key) == p);
}

/// Choosing a mode changes nobody's place in the table.
pub proof fn choosing_a_mode_keeps_the_clients<K>(s: TableState<K>, key: K, origin: NtpTimestamp)
    requires
        distinct(s.clients),
        known(s.clients, key),
    ensures
        distinct(s.mode_chosen(key, origin).clients),
        known(s.mode_chosen(key, origin).clients, key),
{
    let t = s.mode_chosen(key, origin);
    let p = place(s.clients, key);
    assert(t.clients[p].0 == key);
    assert forall|i: int, j: int|
        0 <= i < t.clients.len() && 0 <= j < t.clients.len() && (#[trigger] t.clients[i]).0 == (
        #[trigger] t.clients[j]).0 implies i == j by {
        assert(s.clients[i].0 == s.clients[j].0);
    }
}

/// A client that was evicted, or never seen, is answered in basic mode when it
/// asks, whatever it echoes: nobody is given another client's timestamps.
pub proof fn a_forgotten_client_starts_over<K>(
    s: TableState<K>,
    key: K,
    now: u64,
    origin: NtpTimestamp,
)
    requires
        distinct(s.clients),
        s.capacity >= 1,
        !known(s.clients, key),
    ensures
        s.mode(key, origin) is Basic,
        s.admitted(key, now).mode(key, origin) is Basic,
{
    admitting_touches_one_record(s, key, now, key);
}

/// A client within its limit cannot be starved by others: where the global
/// ceiling lets a request through, its fate depends on its own record alone.
pub proof fn clients_are_limited_separately<K>(
    s: TableState<K>,
    t: TableState<K>,
    key: K,
    now: u64,
)
    requires
        !s.refused_globally(now),
        !t.refused_globally(now),
        s.config == t.config,
        s.charged_record(key, now) == t.charged_record(key, now),
    ensures
        s.disposition(key, now) == t.disposition(key, now),
{
}

/// Every request is answered or dropped: over any run, requests are responses
/// plus drops, and kisses never outnumber drops.
pub proof fn every_request_is_answered_or_dropped<K>(
    start: TableState<K>,
    requests: Seq<(K, u64)>,
)
    requires
        balanced(start.stats),
    ensures
        balanced(after(start, requests).stats),
    decreases requests.len(),
{
    if requests.len() > 0 {
        every_request_is_answered_or_dropped(start, requests.drop_last());
    }
}

/// Whether clients stand in the order in which they were last seen, the latest
/// first, and none of them after `until`.
pub open spec fn by_last_seen<K>(clients: Seq<(K, ClientRecord)>, until: u64) -> bool {
    &&& forall|i: int|
        0 <= i < clients.len() ==> (#[trigger] clients[i]).1.last_seen <= until
    &&& forall|i: int, j: int|
        0 <= i <= j < clients.len() ==> (#[trigger] clients[i]).1.last_seen >= (
        #[trigger] clients[j]).1.last_seen
}

proof fn lemma_order_step<K>(s: TableState<K>, key: K, now: u64, until: u64)
    requires
        s.capacity >= 1,
        by_last_seen(s.clients, until),
        until <= now,
    ensures
        by_last_seen(s.admitted(key, now).clients, now),
{
    let t = s.admitted(key, now);
    if !s.refused_globally(now) {
        let others = without(s.clients, key);
        let rest = if s.evicts(key) { others.drop_last() } else { others };
        let p = place(s.clients, key);
        let gone = known(s.clients, key);
        if gone {
            assert(0 <= p < s.clients.len());
        }
        assert forall|q: int| 0 <= q < rest.len() implies #[trigger] rest[q] == s.clients[if gone
            && q >= p {
            q + 1
        } else {
            q
        }] by {
        }
        assert forall|i: int, j: int| 0 <= i <= j < t.clients.len() implies (
        #[trigger] t.clients[i]).1.last_seen >= (#[trigger] t.clients[j]).1.last_seen by {
            if j > 0 {
                let b = if gone && j - 1 >= p { j } else { j - 1 };
                assert(t.clients[j] == rest[j - 1]);
                assert(rest[j - 1] == s.clients[b]);
                if i > 0 {
                    let a = if gone && i - 1 >= p { i } else { i - 1 };
                    assert(t.clients[i] == rest[i - 1]);
                    assert(rest[i - 1] == s.clients[a]);
                }
            }
        }
        assert forall|i: int| 0 <= i < t.clients.len() implies (
        #[trigger] t.clients[i]).1.last_seen <= now by {
            if i > 0 {
                let a = if gone && i - 1 >= p { i } else { i - 1 };
                assert(t.clients[i] == rest[i - 1]);
                assert(rest[i - 1] == s.clients[a]);
            }
        }
    }
}

/// The report is in order of time: where the clock does not run back, the clients
/// stand in the order in which they were last seen after every run of requests.
pub proof fn the_report_is_in_order_of_time<K>(
    start: TableState<K>,
    requests: Seq<(K, u64)>,
    from: u64,
)
    requires
        start.capacity >= 1,
        by_last_seen(start.clients, from),
        in_order(from, requests),
    ensures
        after(start, requests).capacity == start.capacity,
        by_last_seen(
            after(start, requests).clients,
            if requests.len() == 0 {
                from
            } else {
                requests.last().1
            },
        ),
    decreases requests.len(),
{
    if requests.len() > 0 {
        let shorter = requests.drop_last();
        let last = requests.last();
        assert(in_order(from, shorter)) by {
            assert forall|i: int| 0 <= i < shorter.len() implies from <= (
            #[trigger] shorter[i]).1 by {
                assert(shorter[i] == requests[i]);
            }
            assert forall|i: int, j: int| 0 <= i <= j < shorter.len() implies (
            #[trigger] shorter[i]).1 <= (#[trigger] shorter[j]).1 by {
                assert(shorter[i] == requests[i] && shorter[j] == requests[j]);
            }
        }
        the_report_is_in_order_of_time(start, shorter, from);
        assert(last == requests[requests.len() - 1]);
        if shorter.len() > 0 {
            assert(shorter.last() == requests[shorter.len() - 1]);
            lemma_order_step(after(start, shorter), last.0, last.1, shorter.last().1);
        } else {
            lemma_order_step(start, last.0, last.1, from);
        }
    }
}

/// The requests of a run that came from one client, in their order.
pub open spec fn own_requests<K>(requests: Seq<(K, u64)>, key: K) -> Seq<(K, u64)>
    decreases requests.len(),
{
    if requests.len() == 0 {
        Seq::empty()
    } else {
        let before = own_requests(requests.drop_last(), key);
        if requests.last().0 == key {
            before.push(requests.last())
        } else {
            before
        }
    }
}

/// A table with everybody but one client taken out.
pub open spec fn alone<K>(start: TableState<K>, key: K) -> TableState<K> {
    TableState {
        clients: if known(start.clients, key) {
            seq![(key, record_of(start.clients, key))]
        } else {
            Seq::empty()
        },
        ..start
    }
}

/// Whether two tables hold the same of a client.
pub open spec fn same_of<K>(a: TableState<K>, b: TableState<K>, key: K) -> bool {
    &&& known(a.clients, key) == known(b.clients, key)
    &&& known(a.clients, key) ==> record_of(a.clients, key) == record_of(b.clients, key)
}

proof fn lemma_others_stay<K>(s: TableState<K>, key: K, now: u64, other: K)
    requires
        distinct(s.clients),
        s.capacity >= 1,
        !s.evicts(key),
        other != key,
        known(s.clients, other),
    ensures
        known(s.admitted(key, now).clients, other),
{
    let t = s.admitted(key, now);
    if !s.refused_globally(now) {
        let o = place(s.clients, other);
        assert(s.clients[o].0 == other);
        let p = place(s.clients, key);
        let at = if known(s.clients, key) && o > p { o } else { o + 1 };
        assert(t.clients[at] == s.clients[o]);
    }
}

/// A client is answered as if it were alone: over a run in which nobody is
/// evicted, and without a global limit, what becomes of its requests, and what
/// would become of one more, is what would in a table that it has for itself.
pub proof fn a_client_is_answered_as_if_alone<K>(
    start: TableState<K>,
    requests: Seq<(K, u64)>,
    key: K,
)
    requires
        distinct(start.clients),
        start.capacity >= 1,
        start.config.global_rate_nhz == 0,
        forall|i: int|
            0 <= i < requests.len() ==> !(#[trigger] after(start, requests.take(i))).evicts(
                requests[i].0,
            ),
    ensures
        same_of(after(start, requests), after(alone(start, key), own_requests(requests, key)), key),
        forall|now: u64| #[trigger]
            after(start, requests).disposition(key, now) == after(
                alone(start, key),
                own_requests(requests, key),
            ).disposition(key, now),
{
    lemma_alone(start, requests, key);
}

proof fn lemma_alone<K>(start: TableState<K>, requests: Seq<(K, u64)>, key: K)
    requires
        distinct(start.clients),
        start.capacity >= 1,
        start.config.global_rate_nhz == 0,
        forall|i: int|
            0 <= i < requests.len() ==> !(#[trigger] after(start, requests.take(i))).evicts(
                requests[i].0,
            ),
    ensures
        ({
            let a = after(start, requests);
            let b = after(alone(start, key), own_requests(requests, key));
            &&& same_of(a, b, key)
            &&& a.config == start.config && b.config == start.config
            &&& a.capacity == start.capacity && b.capacity == start.capacity
            &&& distinct(a.clients) && distinct(b.clients)
            &&& b.clients.len() <= 1
            &&& b.clients.len() == 1 ==> b.clients[0].0 == key
        }),
    decreases requests.len(),
{
    if requests.len() == 0 {
        let b = alone(start, key);
        if known(start.clients, key) {
            assert(b.clients[0].0 == key);
            assert(place(b.clients, key) == 0);
        }
    } else {
        let n = requests.len() - 1;
        let shorter = requests.drop_last();
        let last = requests.last();
        assert forall|i: int| 0 <= i < shorter.len() implies !(#[trigger] after(
            start,
            shorter.take(i),
        )).evicts(shorter[i].0) by {
            assert(shorter.take(i) =~= requests.take(i));
            assert(!after(start, requests.take(i)).evicts(requests[i].0));
        }
        lemma_alone(start, shorter, key);
        let a = after(start, shorter);
        let b = after(alone(start, key), own_requests(shorter, key));
        assert(requests.take(n) =~= shorter);
        assert(!after(start, requests.take(n)).evicts(requests[n].0));
        admitting_touches_one_record(a, last.0, last.1, key);
        if last.0 == key {
            let own = own_requests(requests, key);
            assert(own.drop_last() =~= own_requests(shorter, key));
            assert(own.last() == last);
            assert(after(alone(start, key), own) == b.admitted(key, last.1));
            assert(a.charged_record(key, last.1) == b.charged_record(key, last.1));
            admitting_touches_one_record(b, key, last.1, key);
            if known(b.clients, key) {
                assert(place(b.clients, key) == 0);
                assert(without(b.clients, key).len() == 0);
            } else {
                assert(b.clients.len() == 0) by {
                    if b.clients.len() == 1 {
                        assert(b.clients[0].0 == key);
                    }
                }
            }
        } else {
            if known(a.clients, key) {
                lemma_others_stay(a, last.0, last.1, key);
            }
        }
    }
}

} // verus!
