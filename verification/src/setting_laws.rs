//! What an operator writes is what is set: each option sets what it is named for, to
//! what is written behind it, and nothing else.

use vstd::prelude::*;

use crate::config::{
    config_of, is_comment, no_config, with_line, with_options, ConfigValue, ServerValue,
};
use crate::numbers::{integer_value, is_real, natural_value};
use crate::policy::RateLimitConfig;
use crate::query_options::{query_of, with_query_flags, QueryValue};
use crate::serve_options::{serve_flag, serve_of, with_serve_flags, ServeValue};
use crate::sync_options::{
    sync_arg, sync_of, with_sync_args, DisciplineValue, LeapMode, SyncValue,
};
use crate::text::{lowered, words};

verus! {

/// What tells the flags of a client apart.
proof fn lemma_sync_flags()
    ensures
        "--dry-run"@.len() == 9 && "--dry-run"@[2] == 'd' && "--dry-run"@[3] == 'r'
            && "--dry-run"@[0] == '-',
        "--verbose"@.len() == 9 && "--verbose"@[2] == 'v' && "--verbose"@[3] == 'e'
            && "--verbose"@[0] == '-',
        "-v"@.len() == 2 && "-v"@[0] == '-',
        "--slope-density"@.len() == 15 && "--slope-density"@[2] == 's'
            && "--slope-density"@[0] == '-',
        "--no-makestep"@.len() == 13 && "--no-makestep"@[2] == 'n' && "--no-makestep"@[0] == '-',
        "--no-iburst"@.len() == 11 && "--no-iburst"@[2] == 'n' && "--no-iburst"@[0] == '-',
        "--port"@.len() == 6 && "--port"@[0] == '-',
        "--seconds"@.len() == 9 && "--seconds"@[2] == 's' && "--seconds"@[3] == 'e'
            && "--seconds"@[0] == '-',
        "--timeout-ms"@.len() == 12 && "--timeout-ms"@[2] == 't' && "--timeout-ms"@[0] == '-',
        "--minpoll"@.len() == 9 && "--minpoll"@[2] == 'm' && "--minpoll"@[3] == 'i'
            && "--minpoll"@[0] == '-',
        "--maxpoll"@.len() == 9 && "--maxpoll"@[2] == 'm' && "--maxpoll"@[3] == 'a'
            && "--maxpoll"@[0] == '-',
        "--poll-up-streak"@.len() == 16 && "--poll-up-streak"@[0] == '-',
        "--makestep"@.len() == 10 && "--makestep"@[0] == '-',
        "--maxchange"@.len() == 11 && "--maxchange"@[2] == 'm' && "--maxchange"@[0] == '-',
        "--leapsecmode"@.len() == 13 && "--leapsecmode"@[2] == 'l' && "--leapsecmode"@[0] == '-',
        "--freq-integral-gain"@.len() == 20 && "--freq-integral-gain"@[2] == 'f'
            && "--freq-integral-gain"@[0] == '-',
        "--poll-down-ratio"@.len() == 17 && "--poll-down-ratio"@[0] == '-',
        "--weight-floor-ratio"@.len() == 20 && "--weight-floor-ratio"@[2] == 'w'
            && "--weight-floor-ratio"@[0] == '-',
        "--offset-weight-floor-ratio"@.len() == 27 && "--offset-weight-floor-ratio"@[0] == '-',
        "--offset-age-halflife"@.len() == 21 && "--offset-age-halflife"@[0] == '-',
        "--offset-weight-dispersion-k"@.len() == 28 && "--offset-weight-dispersion-k"@[0] == '-',
        "--corr-ratio"@.len() == 12 && "--corr-ratio"@[2] == 'c' && "--corr-ratio"@[0] == '-',
        "--corr-time"@.len() == 11 && "--corr-time"@[2] == 'c' && "--corr-time"@[0] == '-',
        "--corr-time-max"@.len() == 15 && "--corr-time-max"@[2] == 'c'
            && "--corr-time-max"@[0] == '-',
{
    reveal_strlit("--dry-run");
    reveal_strlit("--verbose");
    reveal_strlit("-v");
    reveal_strlit("--slope-density");
    reveal_strlit("--no-makestep");
    reveal_strlit("--no-iburst");
    reveal_strlit("--port");
    reveal_strlit("--seconds");
    reveal_strlit("--timeout-ms");
    reveal_strlit("--minpoll");
    reveal_strlit("--maxpoll");
    reveal_strlit("--poll-up-streak");
    reveal_strlit("--makestep");
    reveal_strlit("--maxchange");
    reveal_strlit("--leapsecmode");
    reveal_strlit("--freq-integral-gain");
    reveal_strlit("--poll-down-ratio");
    reveal_strlit("--weight-floor-ratio");
    reveal_strlit("--offset-weight-floor-ratio");
    reveal_strlit("--offset-age-halflife");
    reveal_strlit("--offset-weight-dispersion-k");
    reveal_strlit("--corr-ratio");
    reveal_strlit("--corr-time");
    reveal_strlit("--corr-time-max");
}

/// What tells the flags of a server apart.
proof fn lemma_serve_flags()
    ensures
        "--nts"@.len() == 5 && "--nts"@[2] == 'n',
        "--no-ratelimit"@.len() == 14,
        "--ratelimit-interval"@.len() == 20,
        "--ratelimit-burst"@.len() == 17,
        "--ratelimit-global"@.len() == 18,
        "--stratum"@.len() == 9 && "--stratum"@[2] == 's',
        "--bind"@.len() == 6 && "--bind"@[2] == 'b',
        "--ke-bind"@.len() == 9 && "--ke-bind"@[2] == 'k',
        "--nts-name"@.len() == 10,
        "--write-cert"@.len() == 12,
        "--state"@.len() == 7,
        "--control"@.len() == 9 && "--control"@[2] == 'c',
        "--gateway"@.len() == 9 && "--gateway"@[2] == 'g',
        "--gateway-assets"@.len() == 16,
        "--cert"@.len() == 6 && "--cert"@[2] == 'c',
        "--key"@.len() == 5 && "--key"@[2] == 'k',
{
    reveal_strlit("--nts");
    reveal_strlit("--no-ratelimit");
    reveal_strlit("--ratelimit-interval");
    reveal_strlit("--ratelimit-burst");
    reveal_strlit("--ratelimit-global");
    reveal_strlit("--stratum");
    reveal_strlit("--bind");
    reveal_strlit("--ke-bind");
    reveal_strlit("--nts-name");
    reveal_strlit("--write-cert");
    reveal_strlit("--state");
    reveal_strlit("--control");
    reveal_strlit("--gateway");
    reveal_strlit("--gateway-assets");
    reveal_strlit("--cert");
    reveal_strlit("--key");
}

/// What tells the flags of a query apart.
proof fn lemma_query_flags()
    ensures
        "--json"@.len() == 6 && "--json"@[2] == 'j',
        "--count"@.len() == 7,
        "--interval-ms"@.len() == 13,
        "--timeout-ms"@.len() == 12,
        "--port"@.len() == 6 && "--port"@[2] == 'p',
{
    reveal_strlit("--json");
    reveal_strlit("--count");
    reveal_strlit("--interval-ms");
    reveal_strlit("--timeout-ms");
    reveal_strlit("--port");
}

/// What tells the directives of a configuration apart.
proof fn lemma_directives()
    ensures
        "server"@.len() == 6,
        "pool"@.len() == 4 && "pool"@[0] == 'p',
        "makestep"@.len() == 8,
        "maxslewrate"@.len() == 11,
        "allow"@.len() == 5,
        "deny"@.len() == 4 && "deny"@[0] == 'd',
{
    reveal_strlit("server");
    reveal_strlit("pool");
    reveal_strlit("makestep");
    reveal_strlit("maxslewrate");
    reveal_strlit("allow");
    reveal_strlit("deny");
}

/// What tells the options of a `server` line apart.
proof fn lemma_server_words()
    ensures
        "iburst"@.len() == 6,
        "minpoll"@.len() == 7 && "minpoll"@[1] == 'i',
        "maxpoll"@.len() == 7 && "maxpoll"@[1] == 'a',
{
    reveal_strlit("iburst");
    reveal_strlit("minpoll");
    reveal_strlit("maxpoll");
}

/// `--dry-run` measures and reports, and that is all that it sets.
pub proof fn dry_run_touches_no_clock(args: Seq<Seq<char>>, opts: SyncValue)
    requires
        args.len() >= 1,
        args[0] == "--dry-run"@,
    ensures
        sync_arg(args, opts) == Ok::<(SyncValue, int), Seq<char>>(
            (
                SyncValue { dry_run: true, ..opts },
                1,
            ),
        ),
{
    lemma_sync_flags();
}

/// `--verbose` tells more.
pub proof fn verbose_tells_more(args: Seq<Seq<char>>, opts: SyncValue)
    requires
        args.len() >= 1,
        args[0] == "--verbose"@,
    ensures
        sync_arg(args, opts) == Ok::<(SyncValue, int), Seq<char>>(
            (
                SyncValue { verbose: true, ..opts },
                1,
            ),
        ),
{
    lemma_sync_flags();
}

/// `--slope-density` weighs samples by the time they stand for.
pub proof fn slope_density_weights_by_time(args: Seq<Seq<char>>, opts: SyncValue)
    requires
        args.len() >= 1,
        args[0] == "--slope-density"@,
    ensures
        sync_arg(args, opts) == Ok::<(SyncValue, int), Seq<char>>(
            (
                SyncValue {
                    discipline: DisciplineValue {
                        slope_density_weighting: true,
                        ..opts.discipline
                    },
                    ..opts
                },
                1,
            ),
        ),
{
    lemma_sync_flags();
}

/// `--no-makestep` never steps.
pub proof fn no_makestep_never_steps(args: Seq<Seq<char>>, opts: SyncValue)
    requires
        args.len() >= 1,
        args[0] == "--no-makestep"@,
    ensures
        sync_arg(args, opts) == Ok::<(SyncValue, int), Seq<char>>(
            (
                SyncValue {
                    discipline: DisciplineValue { makestep_threshold: None, ..opts.discipline },
                    ..opts
                },
                1,
            ),
        ),
{
    lemma_sync_flags();
}

/// `--no-iburst` starts without a burst.
pub proof fn no_iburst_starts_slowly(args: Seq<Seq<char>>, opts: SyncValue)
    requires
        args.len() >= 1,
        args[0] == "--no-iburst"@,
    ensures
        sync_arg(args, opts) == Ok::<(SyncValue, int), Seq<char>>(
            (
                SyncValue {
                    discipline: DisciplineValue { iburst: false, ..opts.discipline },
                    ..opts
                },
                1,
            ),
        ),
{
    lemma_sync_flags();
}

/// `--port` sets the port to the number behind it.
pub proof fn port_is_the_port(args: Seq<Seq<char>>, opts: SyncValue)
    requires
        args.len() >= 2,
        args[0] == "--port"@,
        natural_value(args[1]) is Some,
        natural_value(args[1])->Some_0 <= 65535,
    ensures
        sync_arg(args, opts) == Ok::<(SyncValue, int), Seq<char>>(
            (
                SyncValue { port: natural_value(args[1])->Some_0 as u16, ..opts },
                2,
            ),
        ),
{
    lemma_sync_flags();
}

/// `--seconds` sets how long to run to the number behind it.
pub proof fn seconds_is_how_long(args: Seq<Seq<char>>, opts: SyncValue)
    requires
        args.len() >= 2,
        args[0] == "--seconds"@,
        natural_value(args[1]) is Some,
        natural_value(args[1])->Some_0 <= u64::MAX,
    ensures
        sync_arg(args, opts) == Ok::<(SyncValue, int), Seq<char>>(
            (
                SyncValue { run_seconds: natural_value(args[1])->Some_0 as u64, ..opts },
                2,
            ),
        ),
{
    lemma_sync_flags();
}

/// `--timeout-ms` sets the timeout to the number behind it.
pub proof fn timeout_is_the_timeout(args: Seq<Seq<char>>, opts: SyncValue)
    requires
        args.len() >= 2,
        args[0] == "--timeout-ms"@,
        natural_value(args[1]) is Some,
        natural_value(args[1])->Some_0 <= u64::MAX,
    ensures
        sync_arg(args, opts) == Ok::<(SyncValue, int), Seq<char>>(
            (
                SyncValue { timeout_ms: natural_value(args[1])->Some_0 as u64, ..opts },
                2,
            ),
        ),
{
    lemma_sync_flags();
}

/// `--minpoll` sets the shortest interval to the number behind it, sign and all.
pub proof fn minpoll_is_the_shortest(args: Seq<Seq<char>>, opts: SyncValue)
    requires
        args.len() >= 2,
        args[0] == "--minpoll"@,
        integer_value(args[1]) is Some,
        -128 <= integer_value(args[1])->Some_0 <= 127,
    ensures
        sync_arg(args, opts) == Ok::<(SyncValue, int), Seq<char>>(
            (
                SyncValue {
                    discipline: DisciplineValue {
                        min_poll: integer_value(args[1])->Some_0 as i8,
                        ..opts.discipline
                    },
                    ..opts
                },
                2,
            ),
        ),
{
    lemma_sync_flags();
}

/// `--maxpoll` sets the longest interval to the number behind it, sign and all.
pub proof fn maxpoll_is_the_longest(args: Seq<Seq<char>>, opts: SyncValue)
    requires
        args.len() >= 2,
        args[0] == "--maxpoll"@,
        integer_value(args[1]) is Some,
        -128 <= integer_value(args[1])->Some_0 <= 127,
    ensures
        sync_arg(args, opts) == Ok::<(SyncValue, int), Seq<char>>(
            (
                SyncValue {
                    discipline: DisciplineValue {
                        max_poll: integer_value(args[1])->Some_0 as i8,
                        ..opts.discipline
                    },
                    ..opts
                },
                2,
            ),
        ),
{
    lemma_sync_flags();
}

/// `--poll-up-streak` sets the streak to the number behind it.
pub proof fn poll_up_streak_is_the_streak(args: Seq<Seq<char>>, opts: SyncValue)
    requires
        args.len() >= 2,
        args[0] == "--poll-up-streak"@,
        natural_value(args[1]) is Some,
        natural_value(args[1])->Some_0 <= u32::MAX,
    ensures
        sync_arg(args, opts) == Ok::<(SyncValue, int), Seq<char>>(
            (
                SyncValue {
                    discipline: DisciplineValue {
                        poll_up_streak: natural_value(args[1])->Some_0 as u32,
                        ..opts.discipline
                    },
                    ..opts
                },
                2,
            ),
        ),
{
    lemma_sync_flags();
}

/// `--makestep` sets the threshold to the first number behind it and the limit to the
/// second; a limit below zero is none.
pub proof fn makestep_sets_threshold_and_limit(args: Seq<Seq<char>>, opts: SyncValue)
    requires
        args.len() >= 3,
        args[0] == "--makestep"@,
        is_real(args[1]),
        integer_value(args[2]) is Some,
        -0x8000_0000 <= integer_value(args[2])->Some_0 <= u32::MAX,
    ensures
        sync_arg(args, opts) is Ok,
        sync_arg(args, opts)->Ok_0.1 == 3,
        sync_arg(args, opts)->Ok_0.0 == (SyncValue {
            discipline: DisciplineValue {
                makestep_threshold: Some(args[1]),
                makestep_limit: if integer_value(args[2])->Some_0 < 0 {
                    u32::MAX
                } else {
                    integer_value(args[2])->Some_0 as u32
                },
                ..opts.discipline
            },
            ..opts
        }),
{
    lemma_sync_flags();
}

/// `--maxchange` sets the bound: how far, from which update on, and how often it is put
/// up with.
pub proof fn maxchange_sets_the_bound(args: Seq<Seq<char>>, opts: SyncValue)
    requires
        args.len() >= 4,
        args[0] == "--maxchange"@,
        is_real(args[1]),
        crate::reals::is_positive_real(args[1]),
        natural_value(args[2]) is Some,
        natural_value(args[2])->Some_0 <= u32::MAX,
        integer_value(args[3]) is Some,
        i32::MIN <= integer_value(args[3])->Some_0 <= i32::MAX,
    ensures
        sync_arg(args, opts) is Ok,
        sync_arg(args, opts)->Ok_0.1 == 4,
        sync_arg(args, opts)->Ok_0.0 == (SyncValue {
            discipline: DisciplineValue {
                max_change: Some(
                    (
                        args[1],
                        natural_value(args[2])->Some_0 as u32,
                        integer_value(args[3])->Some_0 as i32,
                    ),
                ),
                ..opts.discipline
            },
            ..opts
        }),
{
    lemma_sync_flags();
}

/// `--leapsecmode` takes one of three words, each for its own mode.
pub proof fn leapsecmode_names_the_mode(args: Seq<Seq<char>>, opts: SyncValue)
    requires
        args.len() >= 2,
        args[0] == "--leapsecmode"@,
        args[1] == "slew"@ || args[1] == "step"@ || args[1] == "ignore"@,
    ensures
        sync_arg(args, opts) is Ok,
        sync_arg(args, opts)->Ok_0.1 == 2,
        sync_arg(args, opts)->Ok_0.0 == (SyncValue {
            discipline: DisciplineValue {
                leap_mode: Some(
                    if args[1] == "slew"@ {
                        LeapMode::Slew
                    } else if args[1] == "step"@ {
                        LeapMode::Step
                    } else {
                        LeapMode::Ignore
                    },
                ),
                ..opts.discipline
            },
            ..opts
        }),
{
    lemma_sync_flags();
}

/// `--freq-integral-gain` sets what it is named for to the text behind it.
pub proof fn freq_integral_gain_is_set(args: Seq<Seq<char>>, opts: SyncValue)
    requires
        args.len() >= 2,
        args[0] == "--freq-integral-gain"@,
        is_real(args[1]),
    ensures
        sync_arg(args, opts) == Ok::<(SyncValue, int), Seq<char>>(
            (
                SyncValue {
                    discipline: DisciplineValue {
                        freq_integral_gain: Some(args[1]),
                        ..opts.discipline
                    },
                    ..opts
                },
                2,
            ),
        ),
{
    lemma_sync_flags();
}

/// `--poll-down-ratio` sets what it is named for to the text behind it.
pub proof fn poll_down_ratio_is_set(args: Seq<Seq<char>>, opts: SyncValue)
    requires
        args.len() >= 2,
        args[0] == "--poll-down-ratio"@,
        is_real(args[1]),
    ensures
        sync_arg(args, opts) == Ok::<(SyncValue, int), Seq<char>>(
            (
                SyncValue {
                    discipline: DisciplineValue {
                        poll_down_ratio: Some(args[1]),
                        ..opts.discipline
                    },
                    ..opts
                },
                2,
            ),
        ),
{
    lemma_sync_flags();
}

/// `--weight-floor-ratio` sets what it is named for to the text behind it.
pub proof fn weight_floor_ratio_is_set(args: Seq<Seq<char>>, opts: SyncValue)
    requires
        args.len() >= 2,
        args[0] == "--weight-floor-ratio"@,
        is_real(args[1]),
    ensures
        sync_arg(args, opts) == Ok::<(SyncValue, int), Seq<char>>(
            (
                SyncValue {
                    discipline: DisciplineValue {
                        weight_floor_ratio: Some(args[1]),
                        ..opts.discipline
                    },
                    ..opts
                },
                2,
            ),
        ),
{
    lemma_sync_flags();
}

/// `--offset-weight-floor-ratio` sets what it is named for to the text behind it.
pub proof fn offset_weight_floor_ratio_is_set(args: Seq<Seq<char>>, opts: SyncValue)
    requires
        args.len() >= 2,
        args[0] == "--offset-weight-floor-ratio"@,
        is_real(args[1]),
    ensures
        sync_arg(args, opts) == Ok::<(SyncValue, int), Seq<char>>(
            (
                SyncValue {
                    discipline: DisciplineValue {
                        offset_weight_floor_ratio: Some(args[1]),
                        ..opts.discipline
                    },
                    ..opts
                },
                2,
            ),
        ),
{
    lemma_sync_flags();
}

/// `--offset-age-halflife` sets what it is named for to the text behind it.
pub proof fn offset_age_halflife_is_set(args: Seq<Seq<char>>, opts: SyncValue)
    requires
        args.len() >= 2,
        args[0] == "--offset-age-halflife"@,
        is_real(args[1]),
    ensures
        sync_arg(args, opts) == Ok::<(SyncValue, int), Seq<char>>(
            (
                SyncValue {
                    discipline: DisciplineValue {
                        offset_age_halflife: Some(args[1]),
                        ..opts.discipline
                    },
                    ..opts
                },
                2,
            ),
        ),
{
    lemma_sync_flags();
}

/// `--offset-weight-dispersion-k` sets what it is named for to the text behind it.
pub proof fn offset_weight_dispersion_k_is_set(args: Seq<Seq<char>>, opts: SyncValue)
    requires
        args.len() >= 2,
        args[0] == "--offset-weight-dispersion-k"@,
        is_real(args[1]),
    ensures
        sync_arg(args, opts) == Ok::<(SyncValue, int), Seq<char>>(
            (
                SyncValue {
                    discipline: DisciplineValue {
                        offset_weight_dispersion_k: Some(args[1]),
                        ..opts.discipline
                    },
                    ..opts
                },
                2,
            ),
        ),
{
    lemma_sync_flags();
}

/// `--corr-ratio` sets what it is named for to the text behind it.
pub proof fn corr_ratio_is_set(args: Seq<Seq<char>>, opts: SyncValue)
    requires
        args.len() >= 2,
        args[0] == "--corr-ratio"@,
        is_real(args[1]),
    ensures
        sync_arg(args, opts) == Ok::<(SyncValue, int), Seq<char>>(
            (
                SyncValue {
                    discipline: DisciplineValue { corr_ratio: Some(args[1]), ..opts.discipline },
                    ..opts
                },
                2,
            ),
        ),
{
    lemma_sync_flags();
}

/// `--corr-time` sets what it is named for to the text behind it.
pub proof fn corr_time_is_set(args: Seq<Seq<char>>, opts: SyncValue)
    requires
        args.len() >= 2,
        args[0] == "--corr-time"@,
        is_real(args[1]),
    ensures
        sync_arg(args, opts) == Ok::<(SyncValue, int), Seq<char>>(
            (
                SyncValue {
                    discipline: DisciplineValue { corr_time: Some(args[1]), ..opts.discipline },
                    ..opts
                },
                2,
            ),
        ),
{
    lemma_sync_flags();
}

/// `--corr-time-max` sets what it is named for to the text behind it.
pub proof fn corr_time_max_is_set(args: Seq<Seq<char>>, opts: SyncValue)
    requires
        args.len() >= 2,
        args[0] == "--corr-time-max"@,
        is_real(args[1]),
    ensures
        sync_arg(args, opts) == Ok::<(SyncValue, int), Seq<char>>(
            (
                SyncValue {
                    discipline: DisciplineValue {
                        corr_time_max: Some(args[1]),
                        ..opts.discipline
                    },
                    ..opts
                },
                2,
            ),
        ),
{
    lemma_sync_flags();
}

/// What is no flag is a server, taken behind those before it, as it stands.
pub proof fn a_bare_word_is_a_server(args: Seq<Seq<char>>, opts: SyncValue)
    requires
        args.len() >= 1,
        args[0].len() >= 1,
        args[0][0] != '-',
    ensures
        sync_arg(args, opts) == Ok::<(SyncValue, int), Seq<char>>(
            (SyncValue { servers: opts.servers.push(args[0]), ..opts }, 1),
        ),
{
    lemma_sync_flags();
}

/// A flag that is not known is refused, by name.
pub proof fn an_unknown_sync_flag_is_refused(args: Seq<Seq<char>>, opts: SyncValue)
    requires
        args.len() >= 1,
        args[0].len() > 28,
        args[0][0] == '-' && args[0][1] == '-',
    ensures
        sync_arg(args, opts) == Err::<(SyncValue, int), Seq<char>>(
            "unknown flag '"@ + args[0] + "'"@,
        ),
{
    lemma_sync_flags();
}

/// `--nts` serves key establishment too.
pub proof fn nts_is_served(args: Seq<Seq<char>>, opts: ServeValue)
    requires
        args.len() >= 1,
        args[0] == "--nts"@,
    ensures
        serve_flag(args, opts) == Ok::<(ServeValue, int), Seq<char>>(
            (
                ServeValue { nts: true, ..opts },
                1,
            ),
        ),
{
    lemma_serve_flags();
}

/// `--no-ratelimit` lifts every limit: no ceiling over all clients, and for one client a
/// million answers at once and a million a second.
pub proof fn no_ratelimit_lifts_every_limit(args: Seq<Seq<char>>, opts: ServeValue)
    requires
        args.len() >= 1,
        args[0] == "--no-ratelimit"@,
    ensures
        serve_flag(args, opts) is Ok,
        ({
            let limits = serve_flag(args, opts)->Ok_0.0.rate_limit;
            limits.global_rate_nhz == 0 && limits.burst >= 1_000_000 && limits.interval_log2 == -20
        }),
        serve_flag(args, opts)->Ok_0.0.global_rate is None,
        serve_flag(args, opts)->Ok_0.0.stratum == opts.stratum,
{
    lemma_serve_flags();
}

/// `--ratelimit-interval` sets the interval to the number behind it, sign and all.
pub proof fn ratelimit_interval_is_set(args: Seq<Seq<char>>, opts: ServeValue)
    requires
        args.len() >= 2,
        args[0] == "--ratelimit-interval"@,
        integer_value(args[1]) is Some,
        -128 <= integer_value(args[1])->Some_0 <= 127,
    ensures
        serve_flag(args, opts) == Ok::<(ServeValue, int), Seq<char>>(
            (
                ServeValue {
                    rate_limit: RateLimitConfig {
                        interval_log2: integer_value(args[1])->Some_0 as i8,
                        ..opts.rate_limit
                    },
                    ..opts
                },
                2,
            ),
        ),
{
    lemma_serve_flags();
}

/// `--ratelimit-burst` sets the burst to the number behind it.
pub proof fn ratelimit_burst_is_set(args: Seq<Seq<char>>, opts: ServeValue)
    requires
        args.len() >= 2,
        args[0] == "--ratelimit-burst"@,
        natural_value(args[1]) is Some,
        natural_value(args[1])->Some_0 <= u32::MAX,
    ensures
        serve_flag(args, opts) == Ok::<(ServeValue, int), Seq<char>>(
            (
                ServeValue {
                    rate_limit: RateLimitConfig {
                        burst: natural_value(args[1])->Some_0 as u32,
                        ..opts.rate_limit
                    },
                    ..opts
                },
                2,
            ),
        ),
{
    lemma_serve_flags();
}

/// `--ratelimit-global` sets the ceiling over all clients to the number behind it.
pub proof fn ratelimit_global_is_set(args: Seq<Seq<char>>, opts: ServeValue)
    requires
        args.len() >= 2,
        args[0] == "--ratelimit-global"@,
        is_real(args[1]),
    ensures
        serve_flag(args, opts) == Ok::<(ServeValue, int), Seq<char>>(
            (
                ServeValue { global_rate: Some(args[1]), ..opts },
                2,
            ),
        ),
{
    lemma_serve_flags();
}

/// `--stratum` sets the stratum to the number behind it.
pub proof fn stratum_is_set(args: Seq<Seq<char>>, opts: ServeValue)
    requires
        args.len() >= 2,
        args[0] == "--stratum"@,
        natural_value(args[1]) is Some,
        natural_value(args[1])->Some_0 <= 255,
    ensures
        serve_flag(args, opts) == Ok::<(ServeValue, int), Seq<char>>(
            (
                ServeValue { stratum: natural_value(args[1])->Some_0 as u8, ..opts },
                2,
            ),
        ),
{
    lemma_serve_flags();
}

/// `--bind` sets what it is named for to the text behind it.
pub proof fn bind_takes_its_text(args: Seq<Seq<char>>, opts: ServeValue)
    requires
        args.len() >= 2,
        args[0] == "--bind"@,
    ensures
        serve_flag(args, opts) == Ok::<(ServeValue, int), Seq<char>>(
            (
                ServeValue { ntp_bind: args[1], ..opts },
                2,
            ),
        ),
{
    lemma_serve_flags();
}

/// `--ke-bind` sets what it is named for to the text behind it.
pub proof fn ke_bind_takes_its_text(args: Seq<Seq<char>>, opts: ServeValue)
    requires
        args.len() >= 2,
        args[0] == "--ke-bind"@,
    ensures
        serve_flag(args, opts) == Ok::<(ServeValue, int), Seq<char>>(
            (
                ServeValue { ke_bind: args[1], ..opts },
                2,
            ),
        ),
{
    lemma_serve_flags();
}

/// `--nts-name` sets what it is named for to the text behind it.
pub proof fn nts_name_takes_its_text(args: Seq<Seq<char>>, opts: ServeValue)
    requires
        args.len() >= 2,
        args[0] == "--nts-name"@,
    ensures
        serve_flag(args, opts) == Ok::<(ServeValue, int), Seq<char>>(
            (
                ServeValue { nts_name: args[1], ..opts },
                2,
            ),
        ),
{
    lemma_serve_flags();
}

/// `--write-cert` sets what it is named for to the text behind it.
pub proof fn write_cert_takes_its_text(args: Seq<Seq<char>>, opts: ServeValue)
    requires
        args.len() >= 2,
        args[0] == "--write-cert"@,
    ensures
        serve_flag(args, opts) == Ok::<(ServeValue, int), Seq<char>>(
            (
                ServeValue { write_cert: Some(args[1]), ..opts },
                2,
            ),
        ),
{
    lemma_serve_flags();
}

/// `--state` sets what it is named for to the text behind it.
pub proof fn state_takes_its_text(args: Seq<Seq<char>>, opts: ServeValue)
    requires
        args.len() >= 2,
        args[0] == "--state"@,
    ensures
        serve_flag(args, opts) == Ok::<(ServeValue, int), Seq<char>>(
            (
                ServeValue { state_path: Some(args[1]), ..opts },
                2,
            ),
        ),
{
    lemma_serve_flags();
}

/// `--control` sets what it is named for to the text behind it.
pub proof fn control_takes_its_text(args: Seq<Seq<char>>, opts: ServeValue)
    requires
        args.len() >= 2,
        args[0] == "--control"@,
    ensures
        serve_flag(args, opts) == Ok::<(ServeValue, int), Seq<char>>(
            (
                ServeValue { control_path: args[1], ..opts },
                2,
            ),
        ),
{
    lemma_serve_flags();
}

/// `--gateway` sets what it is named for to the text behind it.
pub proof fn gateway_takes_its_text(args: Seq<Seq<char>>, opts: ServeValue)
    requires
        args.len() >= 2,
        args[0] == "--gateway"@,
    ensures
        serve_flag(args, opts) == Ok::<(ServeValue, int), Seq<char>>(
            (
                ServeValue { gateway_bind: Some(args[1]), ..opts },
                2,
            ),
        ),
{
    lemma_serve_flags();
}

/// `--gateway-assets` sets what it is named for to the text behind it.
pub proof fn gateway_assets_takes_its_text(args: Seq<Seq<char>>, opts: ServeValue)
    requires
        args.len() >= 2,
        args[0] == "--gateway-assets"@,
    ensures
        serve_flag(args, opts) == Ok::<(ServeValue, int), Seq<char>>(
            (
                ServeValue { gateway_assets: Some(args[1]), ..opts },
                2,
            ),
        ),
{
    lemma_serve_flags();
}

/// `--cert` sets what it is named for to the text behind it.
pub proof fn cert_takes_its_text(args: Seq<Seq<char>>, opts: ServeValue)
    requires
        args.len() >= 2,
        args[0] == "--cert"@,
    ensures
        serve_flag(args, opts) == Ok::<(ServeValue, int), Seq<char>>(
            (
                ServeValue { cert_path: Some(args[1]), ..opts },
                2,
            ),
        ),
{
    lemma_serve_flags();
}

/// `--key` sets what it is named for to the text behind it.
pub proof fn key_takes_its_text(args: Seq<Seq<char>>, opts: ServeValue)
    requires
        args.len() >= 2,
        args[0] == "--key"@,
    ensures
        serve_flag(args, opts) == Ok::<(ServeValue, int), Seq<char>>(
            (
                ServeValue { key_path: Some(args[1]), ..opts },
                2,
            ),
        ),
{
    lemma_serve_flags();
}

/// `--json` asks for JSON.
pub proof fn json_is_asked_for(args: Seq<Seq<char>>, opts: QueryValue)
    requires
        args.len() >= 1,
        args[0] == "--json"@,
    ensures
        with_query_flags(args, opts) == with_query_flags(
            args.skip(1),
            QueryValue { json: true, ..opts },
        ),
{
    lemma_query_flags();
}

/// `--count` sets how often to ask.
pub proof fn count_is_how_often(args: Seq<Seq<char>>, opts: QueryValue)
    requires
        args.len() >= 2,
        args[0] == "--count"@,
        natural_value(args[1]) is Some,
        natural_value(args[1])->Some_0 <= u32::MAX,
    ensures
        with_query_flags(args, opts) == with_query_flags(
            args.skip(2),
            QueryValue { count: natural_value(args[1])->Some_0 as u32,
            ..opts },
        ),
{
    lemma_query_flags();
}

/// `--interval-ms` sets how far apart.
pub proof fn interval_is_how_far_apart(args: Seq<Seq<char>>, opts: QueryValue)
    requires
        args.len() >= 2,
        args[0] == "--interval-ms"@,
        natural_value(args[1]) is Some,
        natural_value(args[1])->Some_0 <= u64::MAX,
    ensures
        with_query_flags(args, opts) == with_query_flags(
            args.skip(2),
            QueryValue { interval_ms: natural_value(args[1])->Some_0 as u64,
            ..opts },
        ),
{
    lemma_query_flags();
}

/// `--timeout-ms` sets how long to wait for an answer.
pub proof fn query_timeout_is_the_timeout(args: Seq<Seq<char>>, opts: QueryValue)
    requires
        args.len() >= 2,
        args[0] == "--timeout-ms"@,
        natural_value(args[1]) is Some,
        natural_value(args[1])->Some_0 <= u64::MAX,
    ensures
        with_query_flags(args, opts) == with_query_flags(
            args.skip(2),
            QueryValue { timeout_ms: natural_value(args[1])->Some_0 as u64,
            ..opts },
        ),
{
    lemma_query_flags();
}

/// `--port` sets the port.
pub proof fn query_port_is_the_port(args: Seq<Seq<char>>, opts: QueryValue)
    requires
        args.len() >= 2,
        args[0] == "--port"@,
        natural_value(args[1]) is Some,
        natural_value(args[1])->Some_0 <= 65535,
    ensures
        with_query_flags(args, opts) == with_query_flags(
            args.skip(2),
            QueryValue { port: natural_value(args[1])->Some_0 as u16,
            ..opts },
        ),
{
    lemma_query_flags();
}

/// A query without flags asks the server that is named four times, a second apart, on
/// port 123, and waits two seconds for each answer.
pub proof fn a_plain_query(name: Seq<char>)
    requires
        name.len() >= 1,
        name[0] != '-',
    ensures
        query_of(seq![name]) == Ok::<QueryValue, Seq<char>>(
            QueryValue {
                server: name,
                count: 4,
                interval_ms: 1000,
                timeout_ms: 2000,
                port: 123,
                json: false,
            },
        ),
{
    assert(seq![name].skip(1) =~= Seq::empty());
}

/// A query asks once at least and 64 times at most, or is refused.
pub proof fn a_query_asks_one_to_64_times(args: Seq<Seq<char>>)
    requires
        query_of(args) is Ok,
    ensures
        1 <= query_of(args)->Ok_0.count <= 64,
        args.len() > 0,
{
}

/// What is written comes one after the other: each argument is taken with what follows
/// it, and the rest is read as if it stood alone.
pub proof fn sync_arguments_are_read_in_turn(
    args: Seq<Seq<char>>,
    opts: SyncValue,
    next: SyncValue,
    taken: int,
)
    requires
        args.len() > 0,
        sync_arg(args, opts) == Ok::<(SyncValue, int), Seq<char>>((next, taken)),
        0 < taken <= args.len(),
    ensures
        with_sync_args(args, opts) == with_sync_args(args.skip(taken), next),
{
}

/// A server with nothing but its surroundings: NTP on 123 and key establishment on 4460 of
/// every address, at stratum 1, without NTS, and eight answers at once to one client, one
/// each eight seconds after.
pub proof fn a_plain_server(passphrase: Option<Seq<char>>, control: Seq<char>)
    ensures
        serve_of(Seq::empty(), passphrase, control) is Ok,
        ({
            let o = serve_of(Seq::empty(), passphrase, control)->Ok_0;
            &&& o.ntp_bind == "0.0.0.0:123"@ && o.ke_bind == "0.0.0.0:4460"@
            &&& o.stratum == 1 && !o.nts
            &&& o.cert_path is None && o.key_path is None
            &&& o.state_path is None && o.state_passphrase == passphrase
            &&& o.gateway_bind is None && o.gateway_assets is None
            &&& o.rate_limit.burst == 8 && o.rate_limit.interval_log2 == 3
            &&& o.control_path == control
        }),
{
}

/// A server claims a stratum between 1 and 15, or does not start.
pub proof fn a_server_claims_a_stratum(
    args: Seq<Seq<char>>,
    passphrase: Option<Seq<char>>,
    control: Seq<char>,
)
    requires
        serve_of(args, passphrase, control) is Ok,
    ensures
        1 <= serve_of(args, passphrase, control)->Ok_0.stratum <= 15,
{
}

/// What is written for a server comes one after the other too.
pub proof fn serve_flags_are_read_in_turn(
    args: Seq<Seq<char>>,
    opts: ServeValue,
    next: ServeValue,
    taken: int,
)
    requires
        args.len() > 0,
        serve_flag(args, opts) == Ok::<(ServeValue, int), Seq<char>>((next, taken)),
        0 < taken <= args.len(),
    ensures
        with_serve_flags(args, opts) == with_serve_flags(args.skip(taken), next),
{
}

/// A client with a server and nothing else keeps its clock by it: port 123, for ever,
/// stepping offsets over a second away in its first three updates, with a burst, polling
/// between 64 and 1024 seconds.
pub proof fn a_plain_client(name: Seq<char>)
    requires
        name.len() >= 1,
        name[0] != '-',
    ensures
        sync_of(seq![name]) is Ok,
        ({
            let o = sync_of(seq![name])->Ok_0;
            &&& o.servers == seq![name]
            &&& o.port == 123
            &&& !o.dry_run
            &&& o.run_seconds == 0
            &&& o.discipline.min_poll == 6 && o.discipline.max_poll == 10
            &&& o.discipline.makestep_threshold == Some("1.0"@)
            &&& o.discipline.makestep_limit == 3
            &&& o.discipline.iburst
            &&& o.discipline.max_change is None
        }),
{
    let args = seq![name];
    let start = crate::sync_options::sync_defaults();
    a_bare_word_is_a_server(args, start);
    assert(args.skip(1) =~= Seq::empty());
    assert(start.servers.push(name) =~= seq![name]);
    reveal_with_fuel(with_sync_args, 2);
}

/// A `server` line adds the host that it names, without options, behind those before it.
pub proof fn a_server_line_adds_a_server(config: ConfigValue, line: nat, text: Seq<char>)
    requires
        words(text).len() >= 2,
        !is_comment(words(text)[0]),
        lowered(words(text)[0]) == "server"@,
        words(text).len() == 2,
    ensures
        with_line(config, line, text) == Ok::<ConfigValue, crate::config::Complaint>(
            ConfigValue {
                servers: config.servers.push(ServerValue {
                    host: words(text)[1],
                    is_pool: false,
                    iburst: false,
                    min_poll: None,
                    max_poll: None,
                }),
                ..config
            },
        ),
{
    lemma_directives();
    assert(words(text).skip(1).skip(1) =~= Seq::empty());
    assert(words(text).skip(1)[0] == words(text)[1]);
}

/// A `pool` line adds the host that it names, without options, behind those before it.
pub proof fn a_pool_line_adds_a_pool(config: ConfigValue, line: nat, text: Seq<char>)
    requires
        words(text).len() >= 2,
        !is_comment(words(text)[0]),
        lowered(words(text)[0]) == "pool"@,
        words(text).len() == 2,
    ensures
        with_line(config, line, text) == Ok::<ConfigValue, crate::config::Complaint>(
            ConfigValue {
                servers: config.servers.push(ServerValue {
                    host: words(text)[1],
                    is_pool: true,
                    iburst: false,
                    min_poll: None,
                    max_poll: None,
                }),
                ..config
            },
        ),
{
    lemma_directives();
    assert(words(text).skip(1).skip(1) =~= Seq::empty());
    assert(words(text).skip(1)[0] == words(text)[1]);
}

/// A `makestep` line sets the threshold to its first number, as text, and the limit to its
/// second; a limit below zero is none.
pub proof fn makestep_line_sets_both(config: ConfigValue, line: nat, text: Seq<char>)
    requires
        words(text).len() >= 3,
        !is_comment(words(text)[0]),
        lowered(words(text)[0]) == "makestep"@,
        is_real(words(text)[1]),
        integer_value(words(text)[2]) is Some,
        -0x8000_0000 <= integer_value(words(text)[2])->Some_0 <= u32::MAX,
    ensures
        with_line(config, line, text) == Ok::<ConfigValue, crate::config::Complaint>(
            ConfigValue {
                makestep: Some(
                    (
                        words(text)[1],
                        if integer_value(words(text)[2])->Some_0 < 0 {
                            u32::MAX
                        } else {
                            integer_value(words(text)[2])->Some_0 as u32
                        },
                    ),
                ),
                ..config
            },
        ),
{
    lemma_directives();
    assert(words(text).skip(1)[0] == words(text)[1]);
    assert(words(text).skip(1)[1] == words(text)[2]);
}

/// A `maxslewrate` line sets the rate to its number, as text.
pub proof fn maxslewrate_line_sets_the_rate(config: ConfigValue, line: nat, text: Seq<char>)
    requires
        words(text).len() >= 2,
        !is_comment(words(text)[0]),
        lowered(words(text)[0]) == "maxslewrate"@,
        is_real(words(text)[1]),
    ensures
        with_line(config, line, text) == Ok::<ConfigValue, crate::config::Complaint>(
            ConfigValue { max_slew_ppm: Some(words(text)[1]), ..config },
        ),
{
    lemma_directives();
    assert(words(text).skip(1)[0] == words(text)[1]);
}

/// An `allow` line adds what it names to its own list, or all where it names nothing.
pub proof fn allow_line_adds_to_its_list(config: ConfigValue, line: nat, text: Seq<char>)
    requires
        words(text).len() >= 1,
        !is_comment(words(text)[0]),
        lowered(words(text)[0]) == "allow"@,
    ensures
        with_line(config, line, text) == Ok::<ConfigValue, crate::config::Complaint>(
            ConfigValue {
                allow: config.allow.push(
                    if words(text).len() > 1 {
                        words(text)[1]
                    } else {
                        "all"@
                    },
                ),
                ..config
            },
        ),
{
    lemma_directives();
    if words(text).len() > 1 {
        assert(words(text).skip(1)[0] == words(text)[1]);
    }
}

/// A `deny` line adds what it names to its own list, or all where it names nothing.
pub proof fn deny_line_adds_to_its_list(config: ConfigValue, line: nat, text: Seq<char>)
    requires
        words(text).len() >= 1,
        !is_comment(words(text)[0]),
        lowered(words(text)[0]) == "deny"@,
    ensures
        with_line(config, line, text) == Ok::<ConfigValue, crate::config::Complaint>(
            ConfigValue {
                deny: config.deny.push(
                    if words(text).len() > 1 {
                        words(text)[1]
                    } else {
                        "all"@
                    },
                ),
                ..config
            },
        ),
{
    lemma_directives();
    if words(text).len() > 1 {
        assert(words(text).skip(1)[0] == words(text)[1]);
    }
}

/// `iburst` on a server asks for a burst.
pub proof fn an_iburst_option_is_taken(
    line: nat,
    directive: Seq<char>,
    opts: Seq<Seq<char>>,
    server: ServerValue,
    ignored: Seq<(nat, Seq<char>)>,
)
    requires
        opts.len() >= 1,
        lowered(opts[0]) == "iburst"@,
    ensures
        with_options(line, directive, opts, server, ignored) == with_options(
            line,
            directive,
            opts.skip(1),
            ServerValue { iburst: true, ..server },
            ignored,
        ),
{
    lemma_server_words();
}

/// `minpoll` on a server sets its own end of the interval to the number behind it.
pub proof fn a_minpoll_option_is_taken(
    line: nat,
    directive: Seq<char>,
    opts: Seq<Seq<char>>,
    server: ServerValue,
    ignored: Seq<(nat, Seq<char>)>,
)
    requires
        opts.len() >= 2,
        lowered(opts[0]) == "minpoll"@,
        integer_value(opts[1]) is Some,
        -128 <= integer_value(opts[1])->Some_0 <= 127,
    ensures
        with_options(line, directive, opts, server, ignored) == with_options(
            line,
            directive,
            opts.skip(2),
            ServerValue { min_poll: Some(integer_value(opts[1])->Some_0 as i8),
            ..server }, ignored,
        ),
{
    lemma_server_words();
}

/// `maxpoll` on a server sets its own end of the interval to the number behind it.
pub proof fn a_maxpoll_option_is_taken(
    line: nat,
    directive: Seq<char>,
    opts: Seq<Seq<char>>,
    server: ServerValue,
    ignored: Seq<(nat, Seq<char>)>,
)
    requires
        opts.len() >= 2,
        lowered(opts[0]) == "maxpoll"@,
        integer_value(opts[1]) is Some,
        -128 <= integer_value(opts[1])->Some_0 <= 127,
    ensures
        with_options(line, directive, opts, server, ignored) == with_options(
            line,
            directive,
            opts.skip(2),
            ServerValue { max_poll: Some(integer_value(opts[1])->Some_0 as i8),
            ..server }, ignored,
        ),
{
    lemma_server_words();
}

/// Comments and blank lines say nothing: a line whose first word starts with `!`, `;`,
/// `#` or `%` is one.
pub proof fn comments_say_nothing(config: ConfigValue, line: nat, text: Seq<char>)
    requires
        words(text).len() == 0 || (words(text)[0].len() > 0 && (words(text)[0][0] == '!' || words(
            text,
        )[0][0] == ';' || words(text)[0][0] == '#' || words(text)[0][0] == '%')),
    ensures
        with_line(config, line, text) == Ok::<ConfigValue, crate::config::Complaint>(config),
{
}

/// What is not known is noted, with its line, and never fatal.
pub proof fn unknown_directives_are_noted(config: ConfigValue, line: nat, text: Seq<char>)
    requires
        words(text).len() > 0,
        !is_comment(words(text)[0]),
        lowered(words(text)[0]).len() > 11,
    ensures
        with_line(config, line, text) == Ok::<ConfigValue, crate::config::Complaint>(
            ConfigValue {
                ignored: config.ignored.push((line, lowered(words(text)[0]))),
                ..config
            },
        ),
{
    lemma_directives();
}

/// A text that says nothing sets nothing.
pub proof fn an_empty_text_sets_nothing()
    ensures
        config_of(Seq::empty()) == Ok::<ConfigValue, crate::config::Complaint>(no_config()),
        no_config().servers.len() == 0,
        no_config().makestep is None,
        no_config().max_slew_ppm is None,
        no_config().allow.len() == 0 && no_config().deny.len() == 0,
        no_config().ignored.len() == 0,
{
}

} // verus!
