//! The control plane: what each operation answers, in whichever role the daemon
//! runs. The transport and the wire format belong to the caller.

use std::hash::{BuildHasher, Hash};
use vstd::arithmetic::power::pow;
use vstd::prelude::*;

use crate::api::{ControlRequest, ServerStatsReport};
use crate::policy::{ClientRecord, ServerStats, TableState};
use crate::reply::ServerState;

verus! {

/// The most rows that a client report holds, whatever was asked for.
pub const MAX_CLIENT_ROWS: usize = 4096;

/// The shortest time without an update that counts as stale: 64 s.
pub const MIN_STALE_NS: u128 = 64_000_000_000;

/// What the discipline loop last decided. **Read `synchronized` first**: it is
/// true only when a correction actually reached the clock.
#[derive(Clone, Copy, Debug, PartialEq, Eq, Structural)]
pub struct TrackingReport {
    pub synchronized: bool,
    /// Picoseconds.
    pub offset: i128,
    /// Parts per quadrillion.
    pub freq_ppq: i64,
    /// Picoseconds; `None` where nothing is known.
    pub error_bound: Option<u128>,
    pub poll_log2: i8,
}

/// What the discipline loop publishes for the control socket.
#[derive(Clone, Copy, Debug, PartialEq, Eq, Structural)]
pub struct TrackingState {
    pub report: TrackingReport,
    /// Monotonic nanoseconds of the last publication.
    pub updated: u64,
    /// The loop's current poll interval, nanoseconds: it sets what "stale"
    /// means.
    pub poll_interval: u64,
}

/// Whether `exponent` is the power of two, in seconds, nearest to an interval in
/// nanoseconds on a logarithmic scale: within a factor of the square root of two
/// either way. Squared, so that it is a statement about whole numbers.
pub open spec fn nearest_log2(interval: nat, exponent: int) -> bool {
    let square = interval * interval;
    if exponent >= 0 {
        500_000_000_000_000_000 * pow(4, exponent as nat) <= square < 2_000_000_000_000_000_000
            * pow(4, exponent as nat)
    } else {
        500_000_000_000_000_000 <= square * pow(4, (-exponent) as nat) < 2_000_000_000_000_000_000
    }
}

/// The poll exponent of an interval in nanoseconds; zero for no interval.
pub fn poll_log2_of(interval: u64) -> (exponent: i8)
    ensures
        interval == 0 ==> exponent == 0,
        interval > 0 ==> nearest_log2(interval as nat, exponent as int),
{
    if interval == 0 {
        return 0;
    }
    let wide: u128 = interval as u128;
    assert(1 <= wide * wide <= 0x1_0000_0000_0000_0000 * 0x1_0000_0000_0000_0000 - 1)
        by (nonlinear_arith)
        requires
            1 <= wide <= 0xffff_ffff_ffff_ffff,
    ;
    let square: u128 = wide * wide;
    proof {
        reveal(pow);
        assert(pow(4, 0) == 1);
    }
    if square >= 500_000_000_000_000_000 {
        let mut exponent: i8 = 0;
        let mut low: u128 = 500_000_000_000_000_000;
        // `square / 4` stays clear of overflow where `4 * low` might not.
        while square / 4 >= low
            invariant
                0 <= exponent <= 34,
                low == 500_000_000_000_000_000 * pow(4, exponent as nat),
                low <= square,
                exponent == 34 ==> low > 0x4000_0000_0000_0000_0000_0000_0000_0000,
                pow(4, exponent as nat) >= 1,
            decreases 35 - exponent,
        {
            proof {
                reveal(pow);
                lemma_thirty_four();
            }
            assert(pow(4, (exponent + 1) as nat) == 4 * pow(4, exponent as nat));
            low = low * 4;
            exponent = exponent + 1;
        }
        return exponent;
    }
    let mut exponent: i8 = 0;
    let mut scaled: u128 = square;
    while scaled < 500_000_000_000_000_000
        invariant
            -30 <= exponent <= 0,
            1 <= scaled < 2_000_000_000_000_000_000,
            scaled == square * pow(4, (-exponent) as nat),
            pow(4, (-exponent) as nat) <= scaled,
            exponent == -30 ==> scaled >= 500_000_000_000_000_000,
            square >= 1,
            exponent == 0 ==> scaled < 500_000_000_000_000_000,
        decreases 30 + exponent,
    {
        proof {
            reveal(pow);
            lemma_thirty();
            let e = (-exponent) as nat;
            assert(pow(4, e + 1) == 4 * pow(4, e));
            assert(4 * scaled == square * pow(4, e + 1)) by (nonlinear_arith)
                requires
                    scaled == square * pow(4, e),
                    pow(4, e + 1) == 4 * pow(4, e),
            ;
        }
        scaled = scaled * 4;
        exponent = exponent - 1;
    }
    exponent
}

proof fn lemma_thirty()
    ensures
        pow(4, 30) == 1_152_921_504_606_846_976,
{
    reveal(pow);
    assert(pow(4, 6) == 4096) by {
        reveal_with_fuel(pow, 7);
    }
    vstd::arithmetic::power::lemma_pow_adds(4, 6, 6);
    vstd::arithmetic::power::lemma_pow_adds(4, 12, 6);
    vstd::arithmetic::power::lemma_pow_adds(4, 18, 6);
    vstd::arithmetic::power::lemma_pow_adds(4, 24, 6);
}

proof fn lemma_thirty_four()
    ensures
        pow(4, 34) == 295_147_905_179_352_825_856,
{
    lemma_thirty();
    assert(pow(4, 4) == 256) by {
        reveal_with_fuel(pow, 5);
    }
    vstd::arithmetic::power::lemma_pow_adds(4, 30, 4);
}

impl TrackingState {
    /// A loop that has not yet produced an accepted estimate: unsynchronized,
    /// with no bound at all, never "offset 0", which would read as a perfectly
    /// good clock.
    pub fn unsynchronized(now: u64) -> (state: Self)
        ensures
            state == (TrackingState {
                report: TrackingReport {
                    synchronized: false,
                    offset: 0,
                    freq_ppq: 0,
                    error_bound: None,
                    poll_log2: 0,
                },
                updated: now,
                poll_interval: 64_000_000_000,
            }),
    {
        TrackingState {
            report: TrackingReport {
                synchronized: false,
                offset: 0,
                freq_ppq: 0,
                error_bound: None,
                poll_log2: 0,
            },
            updated: now,
            poll_interval: 64_000_000_000,
        }
    }

    /// Record what the controller just decided. An interval below a second
    /// counts as one for staleness.
    pub fn publish(
        &mut self,
        synchronized: bool,
        offset: i128,
        freq_ppq: i64,
        error_bound: Option<u128>,
        poll_interval: u64,
        now: u64,
    )
        ensures
            final(self).report == (TrackingReport {
                synchronized,
                offset,
                freq_ppq,
                error_bound,
                poll_log2: final(self).report.poll_log2,
            }),
            poll_interval == 0 ==> final(self).report.poll_log2 == 0,
            poll_interval > 0 ==> nearest_log2(
                poll_interval as nat,
                final(self).report.poll_log2 as int,
            ),
            final(self).updated == now,
            final(self).poll_interval == if poll_interval < 1_000_000_000 {
                1_000_000_000
            } else {
                poll_interval
            },
    {
        self.report = TrackingReport {
            synchronized,
            offset,
            freq_ppq,
            error_bound,
            poll_log2: poll_log2_of(poll_interval),
        };
        self.updated = now;
        self.poll_interval = if poll_interval < 1_000_000_000 {
            1_000_000_000
        } else {
            poll_interval
        };
    }

    /// How long the loop has been quiet.
    pub open spec fn age(self, now: u64) -> nat {
        if now > self.updated {
            (now - self.updated) as nat
        } else {
            0
        }
    }

    /// Whether the loop has been quiet for so long that its estimate is no
    /// longer one: four poll intervals, and a minute at least.
    pub open spec fn is_stale(self, now: u64) -> bool {
        self.age(now) > 4 * self.poll_interval && self.age(now) > MIN_STALE_NS
    }

    /// The report as of `now`: a stalled loop stops claiming to be
    /// synchronized, and the error bound grows by 100 parts per million of the
    /// time without news.
    pub open spec fn report_at(self, now: u64) -> TrackingReport {
        TrackingReport {
            synchronized: self.report.synchronized && !self.is_stale(now),
            error_bound: match self.report.error_bound {
                None => None,
                Some(b) if b + self.age(now) / 10 > u128::MAX => Some(u128::MAX),
                Some(b) => Some((b + self.age(now) / 10) as u128),
            },
            ..self.report
        }
    }

    /// The report as of `now`, aged for how long the loop has been quiet.
    pub fn snapshot(&self, now: u64) -> (report: TrackingReport)
        ensures
            report == self.report_at(now),
    {
        let age: u64 = if now > self.updated { now - self.updated } else { 0 };
        let mut report: TrackingReport = self.report;
        if age as u128 > 4 * (self.poll_interval as u128) && age as u128 > MIN_STALE_NS {
            report.synchronized = false;
        }
        report.error_bound = match self.report.error_bound {
            None => None,
            Some(b) => Some(b.saturating_add((age / 10) as u128)),
        };
        report
    }
}

/// Without news a report only gets worse: a stalled loop is never reported as
/// synchronized, what stopped being synchronized does not come back, and an
/// error bound never shrinks.
pub proof fn silence_only_loses_trust(state: TrackingState, earlier: u64, later: u64)
    requires
        earlier <= later,
    ensures
        state.is_stale(later) ==> !state.report_at(later).synchronized,
        state.report_at(later).synchronized ==> state.report_at(earlier).synchronized,
        match (state.report_at(earlier).error_bound, state.report_at(later).error_bound) {
            (Some(b), Some(c)) => b <= c,
            (None, None) => true,
            _ => false,
        },
{
}

/// An unsynchronized loop stays so, without a bound, until something is
/// published.
pub proof fn a_fresh_loop_claims_nothing(state: TrackingState, now: u64)
    requires
        !state.report.synchronized,
        state.report.error_bound is None,
    ensures
        !state.report_at(now).synchronized,
        state.report_at(now).error_bound is None,
{
}

/// One row of the client report.
#[derive(Debug)]
pub struct ClientRow<K> {
    pub client: K,
    /// Nanoseconds since this client was last seen.
    pub last_seen_ago: u64,
    pub requests: u64,
    pub responses: u64,
    pub dropped: u64,
    /// Whether this client is currently *using* interleaved mode.
    pub interleaved: bool,
}

/// The answer to a [`ControlRequest`].
pub enum ControlResponse<K> {
    ServerStats(ServerStatsReport),
    Clients { rows: Vec<ClientRow<K>> },
    /// Master key identifiers currently held. There is nowhere to put a key.
    NtsData { master_key_ids: Vec<u32> },
    Tracking(TrackingReport),
    Pong { version: String },
    Error { message: &'static str },
}

/// The state of a role that a daemon may or may not run.
pub enum Role<T> {
    /// The daemon does not run it.
    Absent,
    /// It runs, but a thread failed while it held the state.
    Poisoned,
    Running(T),
}

/// What this daemon can answer about. Both roles are optional and neither is
/// invented.
#[verifier::reject_recursive_types(K)]
#[verifier::reject_recursive_types(S)]
pub struct ControlState<'a, K, S> {
    pub server: Role<&'a ServerState<K, S>>,
    pub tracking: Role<&'a TrackingState>,
}

impl<'a, K, S> ControlState<'a, K, S> {
    pub fn for_server(server: Role<&'a ServerState<K, S>>) -> (state: Self)
        ensures
            state.server == server,
            state.tracking is Absent,
    {
        ControlState { server, tracking: Role::Absent }
    }

    pub fn for_sync(tracking: Role<&'a TrackingState>) -> (state: Self)
        ensures
            state.server is Absent,
            state.tracking == tracking,
    {
        ControlState { server: Role::Absent, tracking }
    }
}

/// The row that a client's record makes at `now`.
pub open spec fn row_of<K>(client: (K, ClientRecord), now: u64) -> ClientRow<K> {
    ClientRow {
        client: client.0,
        last_seen_ago: if now > client.1.last_seen {
            (now - client.1.last_seen) as u64
        } else {
            0
        },
        requests: client.1.requests,
        responses: client.1.responses,
        dropped: client.1.dropped,
        interleaved: client.1.interleaved_now,
    }
}

/// The server counters as a report.
pub open spec fn stats_of<K>(
    table: TableState<K>,
    stratum: u8,
    uptime_s: u64,
) -> ServerStatsReport {
    ServerStatsReport {
        ntp_requests: table.stats.requests,
        ntp_responses: table.stats.responses,
        dropped_rate_limit: table.stats.dropped_rate_limit,
        kiss_of_death: table.stats.kiss_of_death,
        interleaved_responses: table.stats.interleaved_responses,
        refused: table.stats.refused,
        clients_tracked: table.clients.len() as usize,
        clients_evicted: table.stats.evicted,
        uptime_s,
        stratum,
    }
}

/// How many clients a report shows when `limit` are asked for of `all`.
pub open spec fn rows_shown(limit: usize, all: nat) -> int {
    let shown = if limit < MAX_CLIENT_ROWS {
        limit as int
    } else {
        MAX_CLIENT_ROWS as int
    };
    if shown < all {
        shown
    } else {
        all as int
    }
}

/// Answer one request. An operation aimed at a role that is not running gets a
/// clear error instead of a fabricated zero. `unix_now` is in seconds,
/// `mono_now` in nanoseconds; `master_key_ids` are the identifiers of the keys
/// that the server holds.
pub fn handle<K: Eq + Hash + Copy, S: BuildHasher>(
    request: &ControlRequest,
    state: &ControlState<K, S>,
    master_key_ids: &Vec<u32>,
    unix_now: u64,
    mono_now: u64,
    version: &str,
) -> (response: ControlResponse<K>)
    requires
        match state.server {
            Role::Running(s) => s.wf(),
            _ => true,
        },
    ensures
        match *request {
            ControlRequest::Ping => response is Pong && response->version@ == version@,
            ControlRequest::Tracking => match state.tracking {
                Role::Absent => response is Error && response->message@
                    == "this daemon runs no discipline loop; tracking is served by `rtimed sync`"@,
                Role::Poisoned => response is Error && response->message@
                    == "tracking state is poisoned"@,
                Role::Running(t) => response is Tracking && response->Tracking_0 == t.report_at(
                    mono_now,
                ),
            },
            _ => match state.server {
                Role::Absent => response is Error && response->message@
                    == "this daemon runs no server; these ops are served by `rtimed serve`"@,
                Role::Poisoned => response is Error && response->message@
                    == "server state is poisoned"@,
                Role::Running(s) => match *request {
                    ControlRequest::Clients { limit } => response is Clients && response->rows@
                        == s.clients@.clients.take(
                        rows_shown(limit, s.clients@.clients.len()),
                    ).map_values(|c: (K, ClientRecord)| row_of(c, mono_now)),
                    ControlRequest::NtsData => response is NtsData && response->master_key_ids@
                        == master_key_ids@,
                    _ => response is ServerStats && response->ServerStats_0 == stats_of(
                        s.clients@,
                        s.stratum,
                        if unix_now > s.started_unix {
                            (unix_now - s.started_unix) as u64
                        } else {
                            0
                        },
                    ),
                },
            },
        },
{
    match *request {
        ControlRequest::Ping => {
            return ControlResponse::Pong { version: version.to_owned() };
        },
        ControlRequest::Tracking => {
            return match state.tracking {
                Role::Absent => ControlResponse::Error {
                    message: "this daemon runs no discipline loop; tracking is served by `rtimed sync`",
                },
                Role::Poisoned => ControlResponse::Error { message: "tracking state is poisoned" },
                Role::Running(t) => ControlResponse::Tracking(t.snapshot(mono_now)),
            };
        },
        _ => {},
    }
    let server: &ServerState<K, S> = match state.server {
        Role::Absent => {
            return ControlResponse::Error {
                message: "this daemon runs no server; these ops are served by `rtimed serve`",
            };
        },
        Role::Poisoned => {
            return ControlResponse::Error { message: "server state is poisoned" };
        },
        Role::Running(s) => s,
    };
    match *request {
        ControlRequest::Clients { limit } => {
            let shown: usize = if limit < MAX_CLIENT_ROWS { limit } else { MAX_CLIENT_ROWS };
            let recent: Vec<(K, ClientRecord)> = server.clients.most_recent(shown);
            ControlResponse::Clients { rows: rows(&recent, mono_now) }
        },
        ControlRequest::NtsData => {
            let mut ids: Vec<u32> = Vec::new();
            ids.extend_from_slice(master_key_ids.as_slice());
            assert(ids@ =~= master_key_ids@);
            ControlResponse::NtsData { master_key_ids: ids }
        },
        _ => {
            let stats: ServerStats = server.clients.counters();
            ControlResponse::ServerStats(
                ServerStatsReport {
                    ntp_requests: stats.requests,
                    ntp_responses: stats.responses,
                    dropped_rate_limit: stats.dropped_rate_limit,
                    kiss_of_death: stats.kiss_of_death,
                    interleaved_responses: stats.interleaved_responses,
                    refused: stats.refused,
                    clients_tracked: server.clients.len(),
                    clients_evicted: stats.evicted,
                    uptime_s: if unix_now > server.started_unix {
                        unix_now - server.started_unix
                    } else {
                        0
                    },
                    stratum: server.stratum,
                },
            )
        },
    }
}

fn rows<K: Copy>(recent: &Vec<(K, ClientRecord)>, now: u64) -> (rows: Vec<ClientRow<K>>)
    ensures
        rows@ == recent@.map_values(|c: (K, ClientRecord)| row_of(c, now)),
{
    let mut out: Vec<ClientRow<K>> = Vec::new();
    let mut i: usize = 0;
    while i < recent.len()
        invariant
            i <= recent@.len(),
            out@ == recent@.take(i as int).map_values(|c: (K, ClientRecord)| row_of(c, now)),
        decreases recent@.len() - i,
    {
        let (client, record): (K, ClientRecord) = recent[i];
        out.push(
            ClientRow {
                client,
                last_seen_ago: if now > record.last_seen { now - record.last_seen } else { 0 },
                requests: record.requests,
                responses: record.responses,
                dropped: record.dropped,
                interleaved: record.interleaved_now,
            },
        );
        i = i + 1;
        assert(out@ =~= recent@.take(i as int).map_values(
            |c: (K, ClientRecord)| row_of(c, now),
        ));
    }
    assert(recent@.take(i as int) =~= recent@);
    out
}

} // verus!
