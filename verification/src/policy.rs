//! The rate-limiting policy and what it decides: token buckets, the fate of a
//! request, and the table of clients as a mathematical state that each request
//! moves on.
//!
//! Time is monotonic nanoseconds. Token buckets are exact: a level is a whole
//! number of the finest unit a refill can produce, so no rounding builds up
//! however long a client is tracked.

use vstd::arithmetic::power2::{lemma2_to64, lemma2_to64_rest, pow2};
use vstd::prelude::*;

use crate::arith::{lemma_pow2_at_most, power_of_two};
use crate::ntp::NtpTimestamp;

verus! {

/// Rate-limit policy: how often one client, and all clients together, may be
/// answered.
#[derive(Clone, Copy, Debug, PartialEq, Eq, Structural)]
pub struct RateLimitConfig {
    /// log2 of the mean seconds between responses to one client. 3 = one
    /// response per 8 s. Anything past 64 (one response in more years than a
    /// nanosecond counter can hold) acts as 64.
    pub interval_log2: i8,
    /// How many responses a client may take back to back after being quiet.
    pub burst: u32,
    /// Emit a Kiss-o'-Death to one dropped request in 2^leak_shift: answering
    /// *every* dropped request turns the limiter into the amplifier it exists
    /// to prevent.
    pub leak_shift: u8,
    /// Ceiling on responses per second **across all clients**, in billionths of
    /// a response per second. 0 disables it.
    ///
    /// Per-client limiting alone is defeated by table churn: once the client
    /// population exceeds the table, every request arrives from an address we
    /// have forgotten, gets a fresh bucket, and is answered. A global bucket is
    /// the backstop that bounds total output no matter how the address space is
    /// shuffled.
    pub global_rate_nhz: u64,
    /// Global burst allowance, in billionths of a response.
    pub global_burst_nano: u64,
}

impl Default for RateLimitConfig {
    fn default() -> (config: Self)
        ensures
            config.interval_log2 == 3,
            config.burst == 8,
            config.leak_shift == 2,
            config.global_rate_nhz == 20_000_000_000_000,
            config.global_burst_nano == 40_000_000_000_000,
    {
        RateLimitConfig {
            interval_log2: 3,
            burst: 8,
            leak_shift: 2,
            global_rate_nhz: 20_000_000_000_000,
            global_burst_nano: 40_000_000_000_000,
        }
    }
}

/// One response, in the units of the global bucket: 10^-18 of a response, which
/// is what one nanosecond of one billionth of a response per second earns.
pub const GLOBAL_COST: u128 = 1_000_000_000_000_000_000;

impl RateLimitConfig {
    /// The interval exponent, within the range where it makes a difference.
    ///
    /// Below -63 any whole nanosecond already fills the largest bucket.
    pub open spec fn exponent(self) -> int {
        if self.interval_log2 > 64 {
            64
        } else if self.interval_log2 < -63 {
            -63
        } else {
            self.interval_log2 as int
        }
    }

    /// What one response to a client costs, in the units its bucket counts: the
    /// nanoseconds between responses, as far as they are a whole number.
    pub open spec fn cost(self) -> nat {
        if self.exponent() >= 0 {
            1_000_000_000 * pow2(self.exponent() as nat)
        } else {
            1_000_000_000
        }
    }

    /// What a client earns in one nanosecond, in the same units.
    pub open spec fn gain(self) -> nat {
        if self.exponent() >= 0 {
            1
        } else {
            pow2((-self.exponent()) as nat)
        }
    }

    /// A full per-client bucket.
    pub open spec fn client_cap(self) -> nat {
        self.burst as nat * self.cost()
    }

    /// A full global bucket.
    pub open spec fn global_cap(self) -> nat {
        self.global_burst_nano as nat * 1_000_000_000
    }

    /// How many drops there are to one Kiss-o'-Death.
    pub open spec fn period(self) -> nat {
        pow2(if self.leak_shift < 16 { self.leak_shift as nat } else { 16 })
    }
}

/// A bucket after `elapsed` nanoseconds: never over its cap.
pub open spec fn refilled(level: nat, elapsed: nat, gain: nat, cap: nat) -> nat {
    if level + elapsed * gain < cap {
        level + elapsed * gain
    } else {
        cap
    }
}

/// Nanoseconds from `last` to `now`; a clock that ran backwards earns nothing.
pub open spec fn elapsed_ns(last: u64, now: u64) -> nat {
    if now > last {
        (now - last) as nat
    } else {
        0
    }
}

/// What the server should do with one request.
#[derive(Clone, Copy, Debug, PartialEq, Eq, Structural)]
pub enum Disposition {
    /// Answer normally.
    Respond,
    /// Over the limit: answer with a Kiss-o'-Death RATE so a well-behaved
    /// client backs off.
    KissOfDeath,
    /// Over the limit and not this client's turn for a KoD: say nothing.
    Drop,
}

/// Mark a server response's timestamps so the two are distinguishable by their
/// lowest bit: **receive has bit 0 set, transmit has it clear** (RFC 9769).
///
/// A server can then recognise an interleaved request statelessly, since an
/// origin field with bit 0 set is echoing a *receive* timestamp, and receive
/// can never accidentally equal transmit, which would make the mode ambiguous.
pub fn mark_server_timestamps(receive: &mut NtpTimestamp, transmit: &mut NtpTimestamp)
    ensures
        final(receive).0 == old(receive).0 - old(receive).0 % 2 + 1,
        final(transmit).0 == old(transmit).0 - old(transmit).0 % 2,
        final(receive).0 != final(transmit).0,
{
    receive.0 = receive.0 - receive.0 % 2 + 1;
    transmit.0 = transmit.0 - transmit.0 % 2;
}

/// Which timestamps a response should carry.
#[derive(Clone, Copy, Debug, PartialEq, Eq, Structural)]
pub enum ResponseMode {
    /// The ordinary exchange: receive and transmit from *this* exchange.
    Basic,
    /// Interleaved: the reply carries **this** exchange's receive timestamp
    /// (so the client can interleave again next time) together with the
    /// *actual, post-send* transmit timestamp of the earlier response the
    /// client named in its origin field.
    ///
    /// Two field rules (RFC 9769): **origin** echoes the request's *receive*
    /// field, not its transmit, and **receive** is the current exchange's.
    Interleaved {
        /// The true transmit timestamp of the response the client's origin
        /// field identifies.
        prev_transmit: NtpTimestamp,
    },
}

/// Per-client state: enough for rate limiting, interleaved mode and the MRU
/// report, and no more, since it is multiplied by every client tracked.
#[derive(Clone, Copy, Debug, PartialEq, Eq, Structural)]
pub struct ClientRecord {
    /// When the client last asked, in monotonic nanoseconds.
    pub last_seen: u64,
    /// Token bucket level, in the units of [`RateLimitConfig::cost`].
    pub tokens: u128,
    pub requests: u64,
    pub responses: u64,
    pub dropped: u64,
    /// Dropped requests since the last Kiss-o'-Death, for deterministic leak.
    pub drops_since_kod: u32,
    /// T2 of the last request we accepted.
    pub last_receive: Option<NtpTimestamp>,
    /// The true transmit timestamp of our last response, once it is reported.
    /// `None` until then, which is why interleaved mode cannot answer the very
    /// first request.
    pub last_transmit: Option<NtpTimestamp>,
    /// The receive timestamp we put in our last response. A client asks for
    /// interleaved mode by echoing exactly this.
    pub last_receive_sent: Option<NtpTimestamp>,
    /// Whether the last answered request was actually served interleaved, as
    /// distinct from whether it could have been.
    pub interleaved_now: bool,
}

/// Aggregate counters for the server status report. A counter that reaches its
/// largest value stays there.
#[derive(Clone, Copy, Debug, PartialEq, Eq, Structural)]
pub struct ServerStats {
    pub requests: u64,
    pub responses: u64,
    pub dropped_rate_limit: u64,
    pub kiss_of_death: u64,
    pub interleaved_responses: u64,
    /// Requests refused before any per-client work (bad mode, too short).
    pub refused: u64,
    /// Clients evicted from the table because it was full.
    pub evicted: u64,
}

impl Default for ServerStats {
    fn default() -> (stats: Self)
        ensures
            stats == (ServerStats {
                requests: 0,
                responses: 0,
                dropped_rate_limit: 0,
                kiss_of_death: 0,
                interleaved_responses: 0,
                refused: 0,
                evicted: 0,
            }),
    {
        ServerStats {
            requests: 0,
            responses: 0,
            dropped_rate_limit: 0,
            kiss_of_death: 0,
            interleaved_responses: 0,
            refused: 0,
            evicted: 0,
        }
    }
}

/// A counter one higher, or where it was if it cannot go higher.
pub open spec fn bumped(counter: u64) -> u64 {
    if counter < u64::MAX {
        (counter + 1) as u64
    } else {
        counter
    }
}

/// Whether the counters add up: every request was answered or dropped, and every
/// kiss went with a drop. A counter that has reached its largest value counts no
/// further, and then says nothing of the others.
pub open spec fn balanced(stats: ServerStats) -> bool {
    &&& stats.requests < u64::MAX ==> stats.requests == stats.responses + stats.dropped_rate_limit
    &&& stats.kiss_of_death <= stats.dropped_rate_limit
}

/// Everything the table decides by, as plain values.
pub ghost struct TableState<K> {
    /// Tracked clients, most recently seen first.
    pub clients: Seq<(K, ClientRecord)>,
    /// Global bucket level, in 10^-18 of a response.
    pub global_tokens: nat,
    /// When the global bucket was last refilled.
    pub global_last: Option<u64>,
    /// Global drops since the last global Kiss-o'-Death.
    pub global_drops: nat,
    pub capacity: nat,
    pub config: RateLimitConfig,
    pub stats: ServerStats,
}

/// Whether a client is tracked.
pub open spec fn known<K>(clients: Seq<(K, ClientRecord)>, key: K) -> bool {
    exists|i: int| 0 <= i < clients.len() && (#[trigger] clients[i]).0 == key
}

/// Whether no client stands in the order twice.
pub open spec fn distinct<K>(clients: Seq<(K, ClientRecord)>) -> bool {
    forall|i: int, j: int|
        0 <= i < clients.len() && 0 <= j < clients.len() && (#[trigger] clients[i]).0 == (
        #[trigger] clients[j]).0 ==> i == j
}

/// Where a tracked client stands in the recency order.
pub open spec fn place<K>(clients: Seq<(K, ClientRecord)>, key: K) -> int {
    choose|i: int| 0 <= i < clients.len() && (#[trigger] clients[i]).0 == key
}

/// A tracked client's record.
pub open spec fn record_of<K>(clients: Seq<(K, ClientRecord)>, key: K) -> ClientRecord {
    clients[place(clients, key)].1
}

/// The clients other than `key`, in their order.
pub open spec fn without<K>(clients: Seq<(K, ClientRecord)>, key: K) -> Seq<(K, ClientRecord)> {
    if known(clients, key) {
        clients.remove(place(clients, key))
    } else {
        clients
    }
}

/// A client never seen before starts with a full bucket.
pub open spec fn fresh_record(now: u64, config: RateLimitConfig) -> ClientRecord {
    ClientRecord {
        last_seen: now,
        tokens: config.client_cap() as u128,
        requests: 0,
        responses: 0,
        dropped: 0,
        drops_since_kod: 0,
        last_receive: None,
        last_transmit: None,
        last_receive_sent: None,
        interleaved_now: false,
    }
}

/// One request against one client's own bucket: the record afterwards, and what
/// becomes of the request.
pub open spec fn charged(record: ClientRecord, now: u64, config: RateLimitConfig) -> (
    ClientRecord,
    Disposition,
) {
    let level = refilled(
        record.tokens as nat,
        elapsed_ns(record.last_seen, now),
        config.gain(),
        config.client_cap(),
    );
    let seen = ClientRecord { last_seen: now, requests: bumped(record.requests), ..record };
    if level >= config.cost() {
        (
            ClientRecord {
                tokens: (level - config.cost()) as u128,
                responses: bumped(record.responses),
                ..seen
            },
            Disposition::Respond,
        )
    } else if record.drops_since_kod + 1 >= config.period() {
        (
            ClientRecord {
                tokens: level as u128,
                dropped: bumped(record.dropped),
                drops_since_kod: 0,
                ..seen
            },
            Disposition::KissOfDeath,
        )
    } else {
        (
            ClientRecord {
                tokens: level as u128,
                dropped: bumped(record.dropped),
                drops_since_kod: (record.drops_since_kod + 1) as u32,
                ..seen
            },
            Disposition::Drop,
        )
    }
}

/// The counters after one more request that came to `disposition`.
pub open spec fn counted(stats: ServerStats, disposition: Disposition) -> ServerStats {
    let asked = ServerStats { requests: bumped(stats.requests), ..stats };
    match disposition {
        Disposition::Respond => ServerStats { responses: bumped(stats.responses), ..asked },
        Disposition::Drop => ServerStats {
            dropped_rate_limit: bumped(stats.dropped_rate_limit),
            ..asked
        },
        Disposition::KissOfDeath => ServerStats {
            dropped_rate_limit: bumped(stats.dropped_rate_limit),
            kiss_of_death: bumped(stats.kiss_of_death),
            ..asked
        },
    }
}

impl<K> TableState<K> {
    /// The global bucket at `now`.
    pub open spec fn global_level(self, now: u64) -> nat {
        match self.global_last {
            None => refilled(
                self.global_tokens,
                0,
                self.config.global_rate_nhz as nat,
                self.config.global_cap(),
            ),
            Some(last) => refilled(
                self.global_tokens,
                elapsed_ns(last, now),
                self.config.global_rate_nhz as nat,
                self.config.global_cap(),
            ),
        }
    }

    /// Whether the global ceiling refuses a request at `now`, whoever sent it.
    pub open spec fn refused_globally(self, now: u64) -> bool {
        self.config.global_rate_nhz > 0 && self.global_level(now) < GLOBAL_COST
    }

    /// The record that a request from `key` is charged to.
    pub open spec fn charged_record(self, key: K, now: u64) -> ClientRecord {
        if known(self.clients, key) {
            record_of(self.clients, key)
        } else {
            fresh_record(now, self.config)
        }
    }

    /// Whether admitting `key` pushes the least recently seen client out.
    pub open spec fn evicts(self, key: K) -> bool {
        !known(self.clients, key) && self.clients.len() >= self.capacity
    }

    /// What becomes of a request from `key` at `now`.
    pub open spec fn disposition(self, key: K, now: u64) -> Disposition {
        if self.refused_globally(now) {
            if self.global_drops + 1 >= self.config.period() {
                Disposition::KissOfDeath
            } else {
                Disposition::Drop
            }
        } else {
            charged(self.charged_record(key, now), now, self.config).1
        }
    }

    /// The table after a request from `key` at `now`.
    pub open spec fn admitted(self, key: K, now: u64) -> TableState<K> {
        let disposition = self.disposition(key, now);
        let stats = counted(self.stats, disposition);
        let limited = self.config.global_rate_nhz > 0;
        let level = if limited { self.global_level(now) } else { self.global_tokens };
        let last = if limited { Some(now) } else { self.global_last };
        if self.refused_globally(now) {
            TableState {
                global_tokens: level,
                global_last: last,
                global_drops: if disposition is KissOfDeath { 0 } else { self.global_drops + 1 },
                stats,
                ..self
            }
        } else {
            let record = charged(self.charged_record(key, now), now, self.config).0;
            let others = without(self.clients, key);
            TableState {
                clients: seq![(key, record)] + if self.evicts(key) {
                    others.drop_last()
                } else {
                    others
                },
                global_tokens: if limited && disposition is Respond {
                    (level - GLOBAL_COST) as nat
                } else {
                    level
                },
                global_last: last,
                stats: if self.evicts(key) {
                    ServerStats { evicted: bumped(stats.evicted), ..stats }
                } else {
                    stats
                },
                ..self
            }
        }
    }

    /// The table with one tracked client's record replaced.
    pub open spec fn with_record(self, key: K, record: ClientRecord) -> TableState<K> {
        TableState {
            clients: self.clients.update(place(self.clients, key), (key, record)),
            ..self
        }
    }
}


impl<K> TableState<K> {
    /// A table that has seen nobody.
    pub open spec fn empty(capacity: nat, config: RateLimitConfig) -> TableState<K> {
        TableState {
            clients: Seq::empty(),
            global_tokens: config.global_cap(),
            global_last: None,
            global_drops: 0,
            capacity: if capacity == 0 { 1 } else { capacity },
            config,
            stats: ServerStats {
                requests: 0,
                responses: 0,
                dropped_rate_limit: 0,
                kiss_of_death: 0,
                interleaved_responses: 0,
                refused: 0,
                evicted: 0,
            },
        }
    }
}

/// Whether a client has been answered often enough to ask for interleaved mode.
pub open spec fn can_interleave(record: ClientRecord) -> bool {
    record.last_receive_sent is Some && record.last_transmit is Some
}

/// Whether a request whose origin field is `origin` asks for, and gets,
/// interleaved mode: it echoes the receive timestamp of our last response.
pub open spec fn interleaves(record: ClientRecord, origin: NtpTimestamp) -> bool {
    &&& can_interleave(record)
    &&& record.last_receive_sent == Some(origin)
    &&& origin.0 != 0
}

impl<K> TableState<K> {
    /// The mode in which a request from `key` with this origin field is answered.
    pub open spec fn mode(self, key: K, origin: NtpTimestamp) -> ResponseMode {
        if known(self.clients, key) && interleaves(record_of(self.clients, key), origin) {
            ResponseMode::Interleaved {
                prev_transmit: record_of(self.clients, key).last_transmit->Some_0,
            }
        } else {
            ResponseMode::Basic
        }
    }

    /// The table after a mode was chosen: the record remembers whether the
    /// client is using interleaved mode, and the counter counts it.
    pub open spec fn mode_chosen(self, key: K, origin: NtpTimestamp) -> TableState<K> {
        let record = record_of(self.clients, key);
        if known(self.clients, key) && can_interleave(record) {
            let marked = self.with_record(
                key,
                ClientRecord { interleaved_now: interleaves(record, origin), ..record },
            );
            if interleaves(record, origin) {
                TableState {
                    stats: ServerStats {
                        interleaved_responses: bumped(self.stats.interleaved_responses),
                        ..self.stats
                    },
                    ..marked
                }
            } else {
                marked
            }
        } else {
            self
        }
    }

    /// The table after a response to `key` that reported `sent` as the receive
    /// time of a request that arrived at `receive`.
    pub open spec fn response_noted(
        self,
        key: K,
        receive: NtpTimestamp,
        sent: NtpTimestamp,
    ) -> TableState<K> {
        if known(self.clients, key) {
            self.with_record(
                key,
                ClientRecord {
                    last_receive: Some(receive),
                    last_receive_sent: Some(sent),
                    ..record_of(self.clients, key)
                },
            )
        } else {
            self
        }
    }

    /// The table after a response to `key` is known to have left at `transmit`.
    pub open spec fn transmit_noted(self, key: K, transmit: NtpTimestamp) -> TableState<K> {
        if known(self.clients, key) {
            self.with_record(
                key,
                ClientRecord { last_transmit: Some(transmit), ..record_of(self.clients, key) },
            )
        } else {
            self
        }
    }
}

/// The sizes that the bucket arithmetic has to fit.
pub(crate) proof fn lemma_config_bounds(config: RateLimitConfig)
    ensures
        1_000_000_000 <= config.cost() <= 1_000_000_000 * 0x1_0000_0000_0000_0000,
        1 <= config.gain() <= 0x8000_0000_0000_0000,
        config.client_cap() <= 0xFFFF_FFFF * 1_000_000_000 * 0x1_0000_0000_0000_0000,
        config.global_cap() <= 0xFFFF_FFFF_FFFF_FFFF * 1_000_000_000,
        1 <= config.period() <= 65536,
{
    lemma2_to64();
    lemma2_to64_rest();
    if config.exponent() >= 0 {
        lemma_pow2_at_most(config.exponent() as nat, 64);
    } else {
        lemma_pow2_at_most((-config.exponent()) as nat, 63);
    }
    lemma_pow2_at_most(if config.leak_shift < 16 { config.leak_shift as nat } else { 16 }, 16);
    let cost = config.cost();
    let burst = config.burst as nat;
    assert(burst * cost <= 0xFFFF_FFFF * (1_000_000_000 * 0x1_0000_0000_0000_0000))
        by (nonlinear_arith)
        requires
            0 <= burst <= 0xFFFF_FFFF,
            0 <= cost <= 1_000_000_000 * 0x1_0000_0000_0000_0000,
    ;
}

/// A bucket of level `level` after `elapsed` nanoseconds.
pub(crate) fn refill(level: u128, elapsed: u64, gain: u64, cap: u128) -> (refilled_level: u128)
    requires
        cap < u128::MAX,
    ensures
        refilled_level == refilled(level as nat, elapsed as nat, gain as nat, cap as nat),
{
    proof {
        assert(elapsed * gain <= 0xFFFF_FFFF_FFFF_FFFF * 0xFFFF_FFFF_FFFF_FFFF)
            by (nonlinear_arith)
            requires
                0 <= elapsed <= 0xFFFF_FFFF_FFFF_FFFF,
                0 <= gain <= 0xFFFF_FFFF_FFFF_FFFF,
        ;
    }
    let earned: u128 = elapsed as u128 * gain as u128;
    let reached: u128 = level.saturating_add(earned);
    if reached < cap {
        reached
    } else {
        cap
    }
}

/// The rates and sizes that a policy comes to, computed once per table.
#[derive(Clone, Copy)]
pub(crate) struct Rates {
    pub(crate) cost: u128,
    pub(crate) gain: u64,
    pub(crate) client_cap: u128,
    pub(crate) global_cap: u128,
    pub(crate) period: u32,
}

impl Rates {
    pub(crate) open(crate) spec fn of(self, config: RateLimitConfig) -> bool {
        &&& self.cost == config.cost()
        &&& self.gain == config.gain()
        &&& self.client_cap == config.client_cap()
        &&& self.global_cap == config.global_cap()
        &&& self.period == config.period()
    }

    pub(crate) fn new(config: &RateLimitConfig) -> (rates: Rates)
        ensures
            rates.of(*config),
    {
        proof {
            lemma_config_bounds(*config);
        }
        let clipped: i32 = if config.interval_log2 > 64 {
            64
        } else if config.interval_log2 < -63 {
            -63
        } else {
            config.interval_log2 as i32
        };
        let (cost, gain): (u128, u64) = if clipped >= 0 {
            (1_000_000_000 * power_of_two(clipped as u32), 1)
        } else {
            (1_000_000_000, power_of_two((-clipped) as u32) as u64)
        };
        let shift: u32 = if config.leak_shift < 16 { config.leak_shift as u32 } else { 16 };
        Rates {
            cost,
            gain,
            client_cap: config.burst as u128 * cost,
            global_cap: config.global_burst_nano as u128 * 1_000_000_000,
            period: power_of_two(shift) as u32,
        }
    }
}

impl ClientRecord {
    /// What holds of every record in a table with this policy.
    pub open spec fn fits(self, config: RateLimitConfig) -> bool {
        &&& self.tokens <= config.client_cap()
        &&& self.drops_since_kod < config.period()
        &&& self.interleaved_now ==> can_interleave(self)
    }

    pub(crate) fn fresh(now: u64, rates: &Rates, Ghost(config): Ghost<RateLimitConfig>) -> (record: Self)
        requires
            rates.of(config),
        ensures
            record == fresh_record(now, config),
            record.fits(config),
    {
        proof {
            lemma_config_bounds(config);
        }
        ClientRecord {
            last_seen: now,
            tokens: rates.client_cap,
            requests: 0,
            responses: 0,
            dropped: 0,
            drops_since_kod: 0,
            last_receive: None,
            last_transmit: None,
            last_receive_sent: None,
            interleaved_now: false,
        }
    }

    /// Refill this client's bucket and decide one request's fate by it.
    pub(crate) fn charge(self, now: u64, rates: &Rates, Ghost(config): Ghost<RateLimitConfig>) -> (charge: (
        Self,
        Disposition,
    ))
        requires
            rates.of(config),
            self.fits(config),
        ensures
            charge == charged(self, now, config),
            charge.0.fits(config),
    {
        proof {
            lemma_config_bounds(config);
        }
        let mut record: ClientRecord = self;
        let elapsed: u64 = now.saturating_sub(record.last_seen);
        record.tokens = refill(record.tokens, elapsed, rates.gain, rates.client_cap);
        record.last_seen = now;
        record.requests = record.requests.saturating_add(1);
        if record.tokens >= rates.cost {
            record.tokens = record.tokens - rates.cost;
            record.responses = record.responses.saturating_add(1);
            return (record, Disposition::Respond);
        }
        record.dropped = record.dropped.saturating_add(1);
        // Deterministic leak: every 2^leak_shift-th drop gets a KoD.
        if record.drops_since_kod + 1 >= rates.period {
            record.drops_since_kod = 0;
            (record, Disposition::KissOfDeath)
        } else {
            record.drops_since_kod = record.drops_since_kod + 1;
            (record, Disposition::Drop)
        }
    }
}

} // verus!
