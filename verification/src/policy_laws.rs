//! What the limits let through: a client that asks no more often than it may is
//! always answered, one that asks more often is told so now and then, and the mode
//! of an answer is the one that the client asked for.

use vstd::arithmetic::power2::{lemma2_to64, lemma_pow2_pos, pow2};
use vstd::prelude::*;

use crate::client_laws::{admitting_touches_one_record, choosing_a_mode_keeps_the_clients};
use crate::ntp::{NtpPacket, NtpTimestamp};
use crate::policy::{
    charged, counted, distinct, fresh_record, known, place, record_of, ClientRecord, Disposition,
    RateLimitConfig, ResponseMode, ServerStats, TableState,
};
use crate::reply::{marked_receive, table_after};

verus! {

/// A client's record after it asked `n` times, all at once.
pub open spec fn after_asking(n: nat, now: u64, config: RateLimitConfig) -> ClientRecord
    decreases n,
{
    if n == 0 {
        fresh_record(now, config)
    } else {
        charged(after_asking((n - 1) as nat, now, config), now, config).0
    }
}

proof fn lemma_cost(config: RateLimitConfig)
    ensures
        config.cost() >= 1_000_000_000,
        config.gain() >= 1,
        0 <= config.interval_log2 <= 64 ==> config.cost() == 1_000_000_000 * pow2(
            config.interval_log2 as nat,
        ) && config.gain() == 1,
        -63 <= config.interval_log2 < 0 ==> config.cost() == 1_000_000_000 && config.gain() == pow2(
            (-config.interval_log2) as nat,
        ),
{
    if config.exponent() >= 0 {
        lemma_pow2_pos(config.exponent() as nat);
    } else {
        lemma_pow2_pos((-config.exponent()) as nat);
    }
}

proof fn lemma_asked(n: nat, now: u64, config: RateLimitConfig)
    requires
        n <= config.burst,
    ensures
        after_asking(n, now, config).tokens == (config.burst - n) * config.cost(),
        after_asking(n, now, config).last_seen == now,
    decreases n,
{
    let cost = config.cost() as int;
    let burst = config.burst as int;
    crate::policy::lemma_config_bounds(config);
    lemma_cost(config);
    assert((burst - n) * cost <= burst * cost) by (nonlinear_arith)
        requires
            0 <= n <= burst,
            cost >= 0,
    ;
    assert(0 <= (burst - n) * cost) by (nonlinear_arith)
        requires
            n <= burst,
            cost >= 0,
    ;
    if n > 0 {
        lemma_asked((n - 1) as nat, now, config);
        let before = after_asking((n - 1) as nat, now, config);
        assert((burst - (n - 1)) * cost == (burst - n) * cost + cost) by (nonlinear_arith);
        assert((burst - (n - 1)) * cost <= burst * cost) by (nonlinear_arith)
            requires
                1 <= n <= burst,
                cost >= 0,
        ;
        assert(0 * config.gain() == 0) by (nonlinear_arith);
    } else {
        assert((burst - 0) * cost == burst * cost);
    }
}

/// A burst is answered: a client never seen before may ask as often as its burst all
/// at once, and is answered each time; the next time it is not.
pub proof fn a_burst_is_answered(n: nat, now: u64, config: RateLimitConfig)
    requires
        n <= config.burst,
    ensures
        charged(after_asking(n, now, config), now, config).1 is Respond <==> n < config.burst,
{
    let cost = config.cost() as int;
    lemma_asked(n, now, config);
    lemma_cost(config);
    crate::policy::lemma_config_bounds(config);
    let left = config.burst - n;
    assert(0 * config.gain() == 0) by (nonlinear_arith);
    assert(left * cost <= config.burst * cost) by (nonlinear_arith)
        requires
            left <= config.burst,
            cost >= 0,
    ;
    assert(left >= 1 ==> left * cost >= cost) by (nonlinear_arith)
        requires
            cost >= 0,
    ;
    assert(left == 0 ==> left * cost == 0) by (nonlinear_arith);
}

/// A patient client is always answered: one that has not asked for the mean interval
/// that it is allowed, two to the power of `interval_log2` seconds, is answered,
/// whatever it did before.
pub proof fn a_patient_client_is_answered(
    record: ClientRecord,
    now: u64,
    config: RateLimitConfig,
)
    requires
        config.burst >= 1,
        record.last_seen <= now,
        -63 <= config.interval_log2 <= 64,
        if config.interval_log2 >= 0 {
            now - record.last_seen >= 1_000_000_000 * pow2(config.interval_log2 as nat)
        } else {
            (now - record.last_seen) * pow2((-config.interval_log2) as nat) >= 1_000_000_000
        },
    ensures
        charged(record, now, config).1 is Respond,
{
    lemma_cost(config);
    let cost = config.cost() as int;
    let waited = now - record.last_seen;
    let gain = config.gain() as int;
    assert(config.burst * cost >= cost) by (nonlinear_arith)
        requires
            config.burst >= 1,
            cost >= 0,
    ;
    assert(waited * 1 == waited);
}

/// An impatient client is not: with nothing in its bucket, one that asks again before
/// that interval has passed is not answered.
pub proof fn an_impatient_client_is_not_answered(
    record: ClientRecord,
    now: u64,
    config: RateLimitConfig,
)
    requires
        record.tokens == 0,
        record.last_seen <= now,
        -63 <= config.interval_log2 <= 64,
        if config.interval_log2 >= 0 {
            now - record.last_seen < 1_000_000_000 * pow2(config.interval_log2 as nat)
        } else {
            (now - record.last_seen) * pow2((-config.interval_log2) as nat) < 1_000_000_000
        },
    ensures
        !(charged(record, now, config).1 is Respond),
        charged(record, now, config).0.last_seen == now,
{
    lemma_cost(config);
    let waited = now - record.last_seen;
    assert(waited * 1 == waited);
}

/// Which of the requests that are not answered are told so: every one in two to the
/// power of `leak_shift`, and of no more than 65536, and no other.
pub proof fn one_drop_in_so_many_is_told(record: ClientRecord, now: u64, config: RateLimitConfig)
    requires
        !(charged(record, now, config).1 is Respond),
    ensures
        ({
            let every = if config.leak_shift < 16 {
                pow2(config.leak_shift as nat)
            } else {
                65536
            };
            let (after, verdict) = charged(record, now, config);
            &&& verdict is KissOfDeath <==> record.drops_since_kod + 1 >= every
            &&& verdict is KissOfDeath ==> after.drops_since_kod == 0
            &&& verdict is Drop && record.drops_since_kod < u32::MAX ==> after.drops_since_kod
                == record.drops_since_kod + 1
            &&& after.dropped == if record.dropped < u64::MAX {
                record.dropped + 1
            } else {
                record.dropped as int
            }
            &&& after.responses == record.responses
        }),
{
    lemma2_to64();
}

/// What an answer takes: one interval's worth of the bucket, and no more; what is not
/// answered takes nothing.
pub proof fn an_answer_takes_one_interval(record: ClientRecord, now: u64, config: RateLimitConfig)
    requires
        record.fits(config),
        record.last_seen == now,
        0 <= config.interval_log2 <= 64,
    ensures
        ({
            let (after, verdict) = charged(record, now, config);
            &&& verdict is Respond ==> record.tokens - after.tokens == 1_000_000_000 * pow2(
                config.interval_log2 as nat,
            )
            &&& !(verdict is Respond) ==> after.tokens == record.tokens
            &&& after.requests == if record.requests < u64::MAX {
                record.requests + 1
            } else {
                record.requests as int
            }
        }),
{
    lemma_cost(config);
    crate::policy::lemma_config_bounds(config);
    assert(0 * config.gain() == 0) by (nonlinear_arith);
}

/// When the ceiling over all clients refuses: never without one; with one, where what
/// is left of it, with what the time since then has earned and no more than its
/// burst, is less than one answer. The ceiling is in billionths of an answer per
/// second, and the level in billionths of that.
pub proof fn the_ceiling_refuses_when_it_is_spent<K>(s: TableState<K>, now: u64)
    ensures
        s.config.global_rate_nhz == 0 ==> !s.refused_globally(now),
        s.config.global_rate_nhz > 0 ==> {
            let waited = match s.global_last {
                Some(last) if now > last => now - last,
                _ => 0,
            };
            s.refused_globally(now) <==> s.global_tokens + waited * s.config.global_rate_nhz
                < 1_000_000_000_000_000_000 || s.config.global_burst_nano * 1_000_000_000
                < 1_000_000_000_000_000_000
        },
{
    let rate = s.config.global_rate_nhz as int;
    assert(0 * rate == 0) by (nonlinear_arith);
}

/// A request that the ceiling lets through is judged by its own client's record
/// alone, and one that it does not is never answered.
pub proof fn the_ceiling_comes_first<K>(s: TableState<K>, key: K, now: u64)
    ensures
        s.refused_globally(now) ==> !(s.disposition(key, now) is Respond),
        !s.refused_globally(now) ==> s.disposition(key, now) == charged(
            if known(s.clients, key) {
                record_of(s.clients, key)
            } else {
                fresh_record(now, s.config)
            },
            now,
            s.config,
        ).1,
        s.disposition(key, now) is Respond && s.config.global_rate_nhz > 0
            ==> s.global_level(now) - s.admitted(key, now).global_tokens
            == 1_000_000_000_000_000_000,
{
}

/// A newcomer is answered, where its burst is one at least and the ceiling lets it
/// through.
pub proof fn a_newcomer_is_answered<K>(s: TableState<K>, key: K, now: u64)
    requires
        !known(s.clients, key),
        s.config.burst >= 1,
        !s.refused_globally(now),
    ensures
        s.disposition(key, now) is Respond,
{
    a_burst_is_answered(0, now, s.config);
}

/// Every request is counted once, as what became of it.
pub proof fn every_request_is_counted(stats: ServerStats, disposition: Disposition)
    requires
        stats.requests < u64::MAX,
        stats.responses < u64::MAX,
        stats.dropped_rate_limit < u64::MAX,
        stats.kiss_of_death < u64::MAX,
    ensures
        ({
            let next = counted(stats, disposition);
            &&& next.requests == stats.requests + 1
            &&& next.responses == stats.responses + if disposition is Respond {
                1int
            } else {
                0
            }
            &&& next.dropped_rate_limit == stats.dropped_rate_limit + if disposition is Respond {
                0int
            } else {
                1
            }
            &&& next.kiss_of_death == stats.kiss_of_death + if disposition is KissOfDeath {
                1int
            } else {
                0
            }
            &&& next.refused == stats.refused
            &&& next.evicted == stats.evicted
        }),
{
}

/// Which requests are answered in interleaved mode: those of a client in the table
/// whose origin field is the receive time that its last answer carried, once it is
/// known when that answer left, and not zero. The answer then carries that time; every
/// other request is answered in basic mode.
pub proof fn interleaving_is_asked_for<K>(s: TableState<K>, key: K, origin: NtpTimestamp)
    ensures
        ({
            let record = record_of(s.clients, key);
            match s.mode(key, origin) {
                ResponseMode::Interleaved { prev_transmit } => {
                    &&& known(s.clients, key)
                    &&& record.last_receive_sent == Some(origin)
                    &&& record.last_transmit == Some(prev_transmit)
                    &&& origin.0 != 0
                },
                ResponseMode::Basic => {
                    ||| !known(s.clients, key)
                    ||| record.last_receive_sent != Some(origin)
                    ||| record.last_transmit is None
                    ||| origin.0 == 0
                },
            }
        }),
{
}

/// Whatever becomes of a request, what its client waited for is not lost: its bucket holds
/// what it held and what the time since has earned, a full one at most, less one answer
/// where there was one; and the client was seen now.
pub proof fn waiting_is_not_lost(record: ClientRecord, now: u64, config: RateLimitConfig)
    requires
        record.fits(config),
        0 <= config.interval_log2 <= 64,
        now >= record.last_seen,
    ensures
        ({
            let (after, verdict) = charged(record, now, config);
            let one = 1_000_000_000 * pow2(config.interval_log2 as nat);
            let earned = record.tokens + (now - record.last_seen);
            let level = if earned < config.burst * one {
                earned
            } else {
                config.burst * one
            };
            &&& verdict is Respond <==> level >= one
            &&& after.tokens == if verdict is Respond {
                level - one
            } else {
                level
            }
            &&& after.last_seen == now
            &&& after.last_receive == record.last_receive
            &&& after.last_receive_sent == record.last_receive_sent
            &&& after.last_transmit == record.last_transmit
        }),
{
    lemma_cost(config);
    crate::policy::lemma_config_bounds(config);
    let waited = now - record.last_seen;
    assert(waited * 1 == waited);
}

/// What the ceiling refuses is told like any other: one in two to the power of
/// `leak_shift`, counted over all clients; it changes nobody's record, and takes nothing.
pub proof fn the_ceiling_tells_one_in_so_many<K>(s: TableState<K>, key: K, now: u64)
    requires
        s.refused_globally(now),
        s.config.leak_shift < 16,
    ensures
        s.disposition(key, now) is KissOfDeath <==> s.global_drops + 1 >= pow2(
            s.config.leak_shift as nat,
        ),
        s.admitted(key, now).global_drops == if s.disposition(key, now) is KissOfDeath {
            0
        } else {
            s.global_drops + 1
        },
        s.admitted(key, now).clients == s.clients,
        s.admitted(key, now).global_tokens == s.global_level(now),
        s.admitted(key, now).stats.evicted == s.stats.evicted,
{
}

/// What takes from the ceiling is an answer alone, and without a ceiling nothing does.
pub proof fn only_answers_take_from_the_ceiling<K>(s: TableState<K>, key: K, now: u64)
    ensures
        s.config.global_rate_nhz > 0 && !(s.disposition(key, now) is Respond) ==> s.admitted(
            key,
            now,
        ).global_tokens == s.global_level(now),
        s.config.global_rate_nhz == 0 ==> s.admitted(key, now).global_tokens == s.global_tokens
            && s.admitted(key, now).global_last == s.global_last,
        s.config.global_rate_nhz > 0 ==> s.admitted(key, now).global_last == Some(now),
{
}

/// The table takes a client in at the front. One that it knows is moved there; a newcomer
/// makes it one longer, unless it is full: the last one leaves, and that is counted.
pub proof fn a_full_table_lets_one_go<K>(s: TableState<K>, key: K, now: u64)
    requires
        !s.refused_globally(now),
        s.stats.evicted < u64::MAX,
        s.capacity >= 1,
    ensures
        ({
            let next = s.admitted(key, now);
            let full = !known(s.clients, key) && s.clients.len() >= s.capacity;
            &&& next.clients.len() > 0 && next.clients[0].0 == key
            &&& next.clients.len() == if known(s.clients, key) || full {
                s.clients.len()
            } else {
                s.clients.len() + 1
            }
            &&& next.stats.evicted == if full {
                s.stats.evicted + 1
            } else {
                s.stats.evicted as int
            }
            &&& full ==> next.clients.skip(1) == s.clients.drop_last()
            &&& !known(s.clients, key) && !full ==> next.clients.skip(1) == s.clients
        }),
{
    let next = s.admitted(key, now);
    if !known(s.clients, key) {
        if s.clients.len() >= s.capacity {
            assert(next.clients.skip(1) =~= s.clients.drop_last());
        } else {
            assert(next.clients.skip(1) =~= s.clients);
        }
    } else {
        let i = place(s.clients, key);
        assert(0 <= i < s.clients.len());
    }
}

proof fn lemma_written<K>(s: TableState<K>, key: K, record: ClientRecord, other: K)
    requires
        distinct(s.clients),
        known(s.clients, key),
    ensures
        known(s.with_record(key, record).clients, key),
        record_of(s.with_record(key, record).clients, key) == record,
        other != key && known(s.clients, other) ==> known(
            s.with_record(key, record).clients,
            other,
        ) && record_of(s.with_record(key, record).clients, other) == record_of(s.clients, other),
{
    let p = place(s.clients, key);
    let t = s.with_record(key, record);
    assert(t.clients[p].0 == key);
    assert forall|i: int| 0 <= i < t.clients.len() && (#[trigger] t.clients[i]).0 == key implies i
        == p by {
        assert(s.clients[i].0 == key);
    }
    if other != key && known(s.clients, other) {
        let q = place(s.clients, other);
        assert(t.clients[q].0 == other);
        assert forall|i: int|
            0 <= i < t.clients.len() && (#[trigger] t.clients[i]).0 == other implies i == q by {
            assert(s.clients[i].0 == other);
        }
    }
}

/// What is noted of an answer is kept as it was: when its request came, the receive time that
/// it carried, and when it left, each in its own place, for that client alone.
pub proof fn what_is_noted_is_kept<K>(
    s: TableState<K>,
    key: K,
    other: K,
    receive: NtpTimestamp,
    sent: NtpTimestamp,
    transmit: NtpTimestamp,
)
    requires
        distinct(s.clients),
        known(s.clients, key),
        known(s.clients, other),
        other != key,
    ensures
        record_of(s.response_noted(key, receive, sent).clients, key) == (ClientRecord {
            last_receive: Some(receive),
            last_receive_sent: Some(sent),
            ..record_of(s.clients, key)
        }),
        record_of(s.transmit_noted(key, transmit).clients, key) == (ClientRecord {
            last_transmit: Some(transmit),
            ..record_of(s.clients, key)
        }),
        record_of(s.response_noted(key, receive, sent).clients, other) == record_of(
            s.clients,
            other,
        ),
        record_of(s.transmit_noted(key, transmit).clients, other) == record_of(s.clients, other),
        s.response_noted(key, receive, sent).stats == s.stats,
        s.transmit_noted(key, transmit).stats == s.stats,
{
    let record = record_of(s.clients, key);
    lemma_written(
        s,
        key,
        ClientRecord { last_receive: Some(receive), last_receive_sent: Some(sent), ..record },
        other,
    );
    lemma_written(s, key, ClientRecord { last_transmit: Some(transmit), ..record }, other);
}

/// An interleaved answer is counted and marked as one, and no other is.
pub proof fn interleaved_answers_are_counted<K>(s: TableState<K>, key: K, origin: NtpTimestamp)
    requires
        distinct(s.clients),
        known(s.clients, key),
        s.stats.interleaved_responses < u64::MAX,
        record_of(s.clients, key).last_receive_sent is Some,
        record_of(s.clients, key).last_transmit is Some,
    ensures
        ({
            let next = s.mode_chosen(key, origin);
            let interleaved = s.mode(key, origin) is Interleaved;
            &&& record_of(next.clients, key).interleaved_now == interleaved
            &&& next.stats.interleaved_responses == s.stats.interleaved_responses + if interleaved {
                1int
            } else {
                0
            }
            &&& next.stats.requests == s.stats.requests && next.stats.responses == s.stats.responses
        }),
{
    let record = record_of(s.clients, key);
    lemma_written(
        s,
        key,
        ClientRecord { interleaved_now: crate::policy::interleaves(record, origin), ..record },
        key,
    );
}

/// A new table is empty, counts from nothing, and has its whole burst to spend; it holds one
/// client at least.
pub proof fn a_new_table_is_empty<K>(capacity: nat, config: RateLimitConfig)
    ensures
        ({
            let t = TableState::<K>::empty(capacity, config);
            &&& t.clients.len() == 0
            &&& t.capacity == if capacity > 1 {
                capacity
            } else {
                1
            }
            &&& t.global_tokens == config.global_burst_nano * 1_000_000_000
            &&& t.global_last is None && t.global_drops == 0
            &&& t.stats.requests == 0 && t.stats.responses == 0 && t.stats.dropped_rate_limit == 0
            &&& t.stats.kiss_of_death == 0 && t.stats.interleaved_responses == 0
            &&& t.stats.refused == 0 && t.stats.evicted == 0
        }),
{
}

/// An answered client may interleave: what is kept of it is when its request came and the
/// receive time that its answer carries, which is odd. One that is not answered leaves
/// nothing but the charge.
pub proof fn an_answered_client_is_remembered<K>(
    table: TableState<K>,
    request: NtpPacket,
    key: K,
    recv_ts: NtpTimestamp,
    now: u64,
)
    requires
        distinct(table.clients),
        table.capacity >= 1,
    ensures
        !(table.disposition(key, now) is Respond) ==> table_after(
            table,
            request,
            key,
            recv_ts,
            now,
        ) == table.admitted(key, now),
        table.disposition(key, now) is Respond ==> {
            let after = table_after(table, request, key, recv_ts, now);
            let record = record_of(after.clients, key);
            &&& known(after.clients, key)
            &&& record.last_receive == Some(recv_ts)
            &&& record.last_receive_sent is Some
            &&& record.last_receive_sent->Some_0.0 % 2 == 1
            &&& 0 <= record.last_receive_sent->Some_0.0 - recv_ts.0 <= 1
        },
{
    if table.disposition(key, now) is Respond {
        let asked = table.admitted(key, now);
        admitting_touches_one_record(table, key, now, key);
        assert(asked.clients[0].0 == key);
        assert(known(asked.clients, key));
        let chosen = asked.mode_chosen(key, request.origin_ts);
        choosing_a_mode_keeps_the_clients(asked, key, request.origin_ts);
        let sent = marked_receive(recv_ts);
        lemma_written(
            chosen,
            key,
            ClientRecord {
                last_receive: Some(recv_ts),
                last_receive_sent: Some(sent),
                ..record_of(chosen.clients, key)
            },
            key,
        );
    }
}

} // verus!
