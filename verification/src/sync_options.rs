//! The command line of the resident client.
//!
//! Real-valued settings are kept as the text that was checked to be a real
//! number; one that was not given is `None`.

use vstd::prelude::*;
use vstd::string::StringExecFns;

use crate::config::{step_limit, texts};
use crate::flags::{
    flag_integer, flag_natural, flag_real, flag_value, is_flag, lacks_value, missing_value,
    not_known, read_integer, read_natural, read_real, read_value, unknown_flag, written_as_flag,
};
use crate::numbers::{
    integer_value, is_real, natural_value, parse_integer, parse_natural, reads_as_real,
};
use crate::reals::{is_positive_real, reads_as_positive};
use crate::serve_options::text_of;
use crate::text::{chars_of, spells, string_of};

verus! {

/// What to do about a leap second.
#[derive(Clone, Copy, Debug, PartialEq, Eq, Structural)]
pub enum LeapMode {
    Slew,
    Step,
    Ignore,
}

/// The settings of the discipline loop.
#[derive(Debug)]
pub struct DisciplineOptions {
    pub min_poll: i8,
    pub max_poll: i8,
    /// Step away larger offsets than this many seconds.
    pub makestep_threshold: Option<String>,
    pub makestep_limit: u32,
    pub iburst: bool,
    pub slope_density_weighting: bool,
    pub poll_up_streak: u32,
    pub leap_mode: Option<LeapMode>,
    /// The bound on corrections: seconds, updates before it applies, refusals
    /// before giving up.
    pub max_change: Option<(String, u32, i32)>,
    pub freq_integral_gain: Option<String>,
    pub poll_down_ratio: Option<String>,
    pub weight_floor_ratio: Option<String>,
    pub offset_weight_floor_ratio: Option<String>,
    pub offset_age_halflife: Option<String>,
    pub offset_weight_dispersion_k: Option<String>,
    pub corr_ratio: Option<String>,
    pub corr_time: Option<String>,
    pub corr_time_max: Option<String>,
}

#[derive(Debug)]
pub struct SyncOptions {
    pub servers: Vec<String>,
    pub port: u16,
    /// Measure and report, but never touch the clock.
    pub dry_run: bool,
    /// Stop after this many seconds. 0 runs forever.
    pub run_seconds: u64,
    pub discipline: DisciplineOptions,
    pub timeout_ms: u64,
    /// Print one line per exchange.
    pub verbose: bool,
}

/// The settings of the discipline loop as a value.
pub ghost struct DisciplineValue {
    pub min_poll: i8,
    pub max_poll: i8,
    pub makestep_threshold: Option<Seq<char>>,
    pub makestep_limit: u32,
    pub iburst: bool,
    pub slope_density_weighting: bool,
    pub poll_up_streak: u32,
    pub leap_mode: Option<LeapMode>,
    pub max_change: Option<(Seq<char>, u32, i32)>,
    pub freq_integral_gain: Option<Seq<char>>,
    pub poll_down_ratio: Option<Seq<char>>,
    pub weight_floor_ratio: Option<Seq<char>>,
    pub offset_weight_floor_ratio: Option<Seq<char>>,
    pub offset_age_halflife: Option<Seq<char>>,
    pub offset_weight_dispersion_k: Option<Seq<char>>,
    pub corr_ratio: Option<Seq<char>>,
    pub corr_time: Option<Seq<char>>,
    pub corr_time_max: Option<Seq<char>>,
}

/// The options as a value.
pub ghost struct SyncValue {
    pub servers: Seq<Seq<char>>,
    pub port: u16,
    pub dry_run: bool,
    pub run_seconds: u64,
    pub discipline: DisciplineValue,
    pub timeout_ms: u64,
    pub verbose: bool,
}

impl View for DisciplineOptions {
    type V = DisciplineValue;

    open spec fn view(&self) -> DisciplineValue {
        DisciplineValue {
            min_poll: self.min_poll,
            max_poll: self.max_poll,
            makestep_threshold: text_of(self.makestep_threshold),
            makestep_limit: self.makestep_limit,
            iburst: self.iburst,
            slope_density_weighting: self.slope_density_weighting,
            poll_up_streak: self.poll_up_streak,
            leap_mode: self.leap_mode,
            max_change: match self.max_change {
                Some(m) => Some((m.0@, m.1, m.2)),
                None => None,
            },
            freq_integral_gain: text_of(self.freq_integral_gain),
            poll_down_ratio: text_of(self.poll_down_ratio),
            weight_floor_ratio: text_of(self.weight_floor_ratio),
            offset_weight_floor_ratio: text_of(self.offset_weight_floor_ratio),
            offset_age_halflife: text_of(self.offset_age_halflife),
            offset_weight_dispersion_k: text_of(self.offset_weight_dispersion_k),
            corr_ratio: text_of(self.corr_ratio),
            corr_time: text_of(self.corr_time),
            corr_time_max: text_of(self.corr_time_max),
        }
    }
}

impl View for SyncOptions {
    type V = SyncValue;

    open spec fn view(&self) -> SyncValue {
        SyncValue {
            servers: texts(self.servers@),
            port: self.port,
            dry_run: self.dry_run,
            run_seconds: self.run_seconds,
            discipline: self.discipline@,
            timeout_ms: self.timeout_ms,
            verbose: self.verbose,
        }
    }
}

/// Whether a flag is followed by one real number, and is set to it.
pub open spec fn is_real_setting(flag: Seq<char>) -> bool {
    ||| flag == "--freq-integral-gain"@
    ||| flag == "--poll-down-ratio"@
    ||| flag == "--weight-floor-ratio"@
    ||| flag == "--offset-weight-floor-ratio"@
    ||| flag == "--offset-age-halflife"@
    ||| flag == "--offset-weight-dispersion-k"@
    ||| flag == "--corr-ratio"@
    ||| flag == "--corr-time"@
    ||| flag == "--corr-time-max"@
}

/// The settings with one of those set.
pub open spec fn with_real(flag: Seq<char>, v: Seq<char>, d: DisciplineValue) -> DisciplineValue {
    if flag == "--freq-integral-gain"@ {
        DisciplineValue { freq_integral_gain: Some(v), ..d }
    } else if flag == "--poll-down-ratio"@ {
        DisciplineValue { poll_down_ratio: Some(v), ..d }
    } else if flag == "--weight-floor-ratio"@ {
        DisciplineValue { weight_floor_ratio: Some(v), ..d }
    } else if flag == "--offset-weight-floor-ratio"@ {
        DisciplineValue { offset_weight_floor_ratio: Some(v), ..d }
    } else if flag == "--offset-age-halflife"@ {
        DisciplineValue { offset_age_halflife: Some(v), ..d }
    } else if flag == "--offset-weight-dispersion-k"@ {
        DisciplineValue { offset_weight_dispersion_k: Some(v), ..d }
    } else if flag == "--corr-ratio"@ {
        DisciplineValue { corr_ratio: Some(v), ..d }
    } else if flag == "--corr-time"@ {
        DisciplineValue { corr_time: Some(v), ..d }
    } else {
        DisciplineValue { corr_time_max: Some(v), ..d }
    }
}

/// Value number `i` after the flag at the front of `args`.
pub open spec fn nth_value(args: Seq<Seq<char>>, i: int) -> Result<Seq<char>, Seq<char>> {
    if args.len() <= i {
        Err(lacks_value(args[0]))
    } else {
        Ok(args[i])
    }
}

/// The two values of `--makestep`.
pub open spec fn makestep_values(args: Seq<Seq<char>>) -> Result<(Seq<char>, u32), Seq<char>> {
    match nth_value(args, 1) {
        Err(e) => Err(e),
        Ok(threshold) => if !is_real(threshold) {
            Err("--makestep: threshold is not a number"@)
        } else {
            match nth_value(args, 2) {
                Err(e) => Err(e),
                Ok(limit) => match integer_value(limit) {
                    Some(n) if i64::MIN <= n <= i64::MAX => Ok((threshold, step_limit(n))),
                    _ => Err("--makestep: limit is not a number"@),
                },
            }
        },
    }
}

/// The three values of `--maxchange`.
pub open spec fn maxchange_values(args: Seq<Seq<char>>) -> Result<(Seq<char>, u32, i32), Seq<char>> {
    match nth_value(args, 1) {
        Err(e) => Err(e),
        Ok(offset) => if !is_real(offset) {
            Err("--maxchange: offset is not a number"@)
        } else {
            match nth_value(args, 2) {
                Err(e) => Err(e),
                Ok(start) => match natural_value(start) {
                    Some(s) if s <= u32::MAX => match nth_value(args, 3) {
                        Err(e) => Err(e),
                        Ok(ignore) => match integer_value(ignore) {
                            Some(g) if i32::MIN <= g <= i32::MAX => if is_positive_real(offset) {
                                Ok((offset, s as u32, g as i32))
                            } else {
                                Err(
                                    "--maxchange: offset must be a positive number of seconds"@,
                                )
                            },
                            _ => Err("--maxchange: ignore is not a number"@),
                        },
                    },
                    _ => Err("--maxchange: start is not a number"@),
                },
            }
        },
    }
}

/// The leap second mode that a word names.
pub open spec fn leap_mode_of(word: Seq<char>) -> Result<LeapMode, Seq<char>> {
    if word == "slew"@ {
        Ok(LeapMode::Slew)
    } else if word == "step"@ {
        Ok(LeapMode::Step)
    } else if word == "ignore"@ {
        Ok(LeapMode::Ignore)
    } else {
        Err("--leapsecmode: expected slew, step or ignore, got '"@ + word + "'"@)
    }
}

/// The options with the argument at the front of `args` added, and how many
/// arguments it took.
pub open spec fn sync_arg(args: Seq<Seq<char>>, opts: SyncValue) -> Result<
    (SyncValue, int),
    Seq<char>,
> {
    let arg = args[0];
    let d = opts.discipline;
    if arg == "--dry-run"@ {
        Ok((SyncValue { dry_run: true, ..opts }, 1))
    } else if arg == "--verbose"@ || arg == "-v"@ {
        Ok((SyncValue { verbose: true, ..opts }, 1))
    } else if arg == "--slope-density"@ {
        Ok(
            (
                SyncValue {
                    discipline: DisciplineValue { slope_density_weighting: true, ..d },
                    ..opts
                },
                1,
            ),
        )
    } else if arg == "--no-makestep"@ {
        Ok(
            (
                SyncValue { discipline: DisciplineValue { makestep_threshold: None, ..d }, ..opts },
                1,
            ),
        )
    } else if arg == "--no-iburst"@ {
        Ok((SyncValue { discipline: DisciplineValue { iburst: false, ..d }, ..opts }, 1))
    } else if arg == "--port"@ {
        match flag_natural(args, u16::MAX as nat) {
            Err(e) => Err(e),
            Ok(n) => Ok((SyncValue { port: n as u16, ..opts }, 2)),
        }
    } else if arg == "--seconds"@ {
        match flag_natural(args, u64::MAX as nat) {
            Err(e) => Err(e),
            Ok(n) => Ok((SyncValue { run_seconds: n as u64, ..opts }, 2)),
        }
    } else if arg == "--timeout-ms"@ {
        match flag_natural(args, u64::MAX as nat) {
            Err(e) => Err(e),
            Ok(n) => Ok((SyncValue { timeout_ms: n as u64, ..opts }, 2)),
        }
    } else if arg == "--minpoll"@ {
        match flag_integer(args, -128, 127) {
            Err(e) => Err(e),
            Ok(n) => Ok(
                (SyncValue { discipline: DisciplineValue { min_poll: n as i8, ..d }, ..opts }, 2),
            ),
        }
    } else if arg == "--maxpoll"@ {
        match flag_integer(args, -128, 127) {
            Err(e) => Err(e),
            Ok(n) => Ok(
                (SyncValue { discipline: DisciplineValue { max_poll: n as i8, ..d }, ..opts }, 2),
            ),
        }
    } else if arg == "--poll-up-streak"@ {
        match flag_natural(args, u32::MAX as nat) {
            Err(e) => Err(e),
            Ok(n) => Ok(
                (
                    SyncValue {
                        discipline: DisciplineValue { poll_up_streak: n as u32, ..d },
                        ..opts
                    },
                    2,
                ),
            ),
        }
    } else if arg == "--makestep"@ {
        match makestep_values(args) {
            Err(e) => Err(e),
            Ok((threshold, limit)) => Ok(
                (
                    SyncValue {
                        discipline: DisciplineValue {
                            makestep_threshold: Some(threshold),
                            makestep_limit: limit,
                            ..d
                        },
                        ..opts
                    },
                    3,
                ),
            ),
        }
    } else if arg == "--maxchange"@ {
        match maxchange_values(args) {
            Err(e) => Err(e),
            Ok(m) => Ok(
                (SyncValue { discipline: DisciplineValue { max_change: Some(m), ..d }, ..opts }, 4),
            ),
        }
    } else if arg == "--leapsecmode"@ {
        match flag_value(args) {
            Err(e) => Err(e),
            Ok(word) => match leap_mode_of(word) {
                Err(e) => Err(e),
                Ok(mode) => Ok(
                    (
                        SyncValue {
                            discipline: DisciplineValue { leap_mode: Some(mode), ..d },
                            ..opts
                        },
                        2,
                    ),
                ),
            },
        }
    } else if is_real_setting(arg) {
        match flag_real(args) {
            Err(e) => Err(e),
            Ok(v) => Ok((SyncValue { discipline: with_real(arg, v, d), ..opts }, 2)),
        }
    } else if is_flag(arg) {
        Err(unknown_flag(arg))
    } else {
        Ok((SyncValue { servers: opts.servers.push(arg), ..opts }, 1))
    }
}

/// The options with all arguments added.
pub open spec fn with_sync_args(args: Seq<Seq<char>>, opts: SyncValue) -> Result<
    SyncValue,
    Seq<char>,
>
    decreases args.len(),
{
    if args.len() == 0 {
        Ok(opts)
    } else {
        match sync_arg(args, opts) {
            Err(e) => Err(e),
            Ok((next, taken)) => if 0 < taken <= args.len() {
                with_sync_args(args.skip(taken), next)
            } else {
                Ok(next)
            },
        }
    }
}

/// The options before any argument.
pub open spec fn sync_defaults() -> SyncValue {
    SyncValue {
        servers: Seq::empty(),
        port: 123,
        dry_run: false,
        run_seconds: 0,
        discipline: DisciplineValue {
            min_poll: 6,
            max_poll: 10,
            makestep_threshold: Some("1.0"@),
            makestep_limit: 3,
            iburst: true,
            slope_density_weighting: false,
            poll_up_streak: 3,
            leap_mode: None,
            max_change: None,
            freq_integral_gain: None,
            poll_down_ratio: None,
            weight_floor_ratio: None,
            offset_weight_floor_ratio: None,
            offset_age_halflife: None,
            offset_weight_dispersion_k: None,
            corr_ratio: None,
            corr_time: None,
            corr_time_max: None,
        },
        timeout_ms: 2000,
        verbose: false,
    }
}

/// What a command line asks for.
pub open spec fn sync_of(args: Seq<Seq<char>>) -> Result<SyncValue, Seq<char>> {
    match with_sync_args(args, sync_defaults()) {
        Err(e) => Err(e),
        Ok(opts) => if opts.servers.len() == 0 {
            Err("at least one server is required"@)
        } else {
            Ok(opts)
        },
    }
}

/// Value number `i` after the argument at `at`.
fn read_nth(args: &[String], at: usize, arg: &[char], i: usize) -> (v: Result<Vec<char>, String>)
    requires
        at < args@.len(),
        arg@ == args@[at as int]@,
        1 <= i <= 3,
    ensures
        match nth_value(texts(args@).skip(at as int), i as int) {
            Ok(t) => v is Ok && v->Ok_0@ == t && at + i < args@.len(),
            Err(e) => v is Err && v->Err_0@ == e,
        },
{
    let ghost rest = texts(args@).skip(at as int);
    assert(rest[0] == arg@);
    if args.len() - at <= i {
        return Err(missing_value(arg));
    }
    let value: Vec<char> = chars_of(args[at + i].as_str());
    assert(rest[i as int] == value@);
    Ok(value)
}

fn read_makestep(args: &[String], at: usize, arg: &[char]) -> (v: Result<(String, u32), String>)
    requires
        at < args@.len(),
        arg@ == args@[at as int]@,
    ensures
        match makestep_values(texts(args@).skip(at as int)) {
            Ok(m) => v is Ok && v->Ok_0.0@ == m.0 && v->Ok_0.1 == m.1 && at + 2 < args@.len(),
            Err(e) => v is Err && v->Err_0@ == e,
        },
{
    let threshold: Vec<char> = match read_nth(args, at, arg, 1) {
        Err(e) => {
            return Err(e);
        },
        Ok(t) => t,
    };
    if !reads_as_real(threshold.as_slice()) {
        return Err("--makestep: threshold is not a number".to_owned());
    }
    let limit: Vec<char> = match read_nth(args, at, arg, 2) {
        Err(e) => {
            return Err(e);
        },
        Ok(t) => t,
    };
    match parse_integer(limit.as_slice(), i64::MIN, i64::MAX) {
        None => Err("--makestep: limit is not a number".to_owned()),
        Some(n) => {
            let limit: u32 = if n < 0 { u32::MAX } else { (n % 0x1_0000_0000) as u32 };
            Ok((string_of(threshold.as_slice()), limit))
        },
    }
}

fn read_maxchange(args: &[String], at: usize, arg: &[char]) -> (v: Result<
    (String, u32, i32),
    String,
>)
    requires
        at < args@.len(),
        arg@ == args@[at as int]@,
    ensures
        match maxchange_values(texts(args@).skip(at as int)) {
            Ok(m) => v is Ok && v->Ok_0.0@ == m.0 && v->Ok_0.1 == m.1 && v->Ok_0.2 == m.2 && at + 3
                < args@.len(),
            Err(e) => v is Err && v->Err_0@ == e,
        },
{
    let offset: Vec<char> = match read_nth(args, at, arg, 1) {
        Err(e) => {
            return Err(e);
        },
        Ok(t) => t,
    };
    if !reads_as_real(offset.as_slice()) {
        return Err("--maxchange: offset is not a number".to_owned());
    }
    let start_text: Vec<char> = match read_nth(args, at, arg, 2) {
        Err(e) => {
            return Err(e);
        },
        Ok(t) => t,
    };
    let start: u64 = match parse_natural(start_text.as_slice(), u32::MAX as u64) {
        None => {
            return Err("--maxchange: start is not a number".to_owned());
        },
        Some(n) => n,
    };
    let ignore_text: Vec<char> = match read_nth(args, at, arg, 3) {
        Err(e) => {
            return Err(e);
        },
        Ok(t) => t,
    };
    let ignore: i64 = match parse_integer(ignore_text.as_slice(), i32::MIN as i64, i32::MAX as i64) {
        None => {
            return Err("--maxchange: ignore is not a number".to_owned());
        },
        Some(n) => n,
    };
    if !reads_as_positive(offset.as_slice()) {
        return Err("--maxchange: offset must be a positive number of seconds".to_owned());
    }
    Ok((string_of(offset.as_slice()), start as u32, ignore as i32))
}

fn read_leap_mode(word: &[char]) -> (mode: Result<LeapMode, String>)
    ensures
        match leap_mode_of(word@) {
            Ok(m) => mode is Ok && mode->Ok_0 == m,
            Err(e) => mode is Err && mode->Err_0@ == e,
        },
{
    if spells(word, "slew") {
        Ok(LeapMode::Slew)
    } else if spells(word, "step") {
        Ok(LeapMode::Step)
    } else if spells(word, "ignore") {
        Ok(LeapMode::Ignore)
    } else {
        let mut message: String =
            "--leapsecmode: expected slew, step or ignore, got '".to_owned();
        message.append(string_of(word).as_str());
        message.append("'");
        Err(message)
    }
}

impl DisciplineOptions {
    /// Set one of the real settings.
    fn set_real(&mut self, flag: &[char], v: String)
        requires
            is_real_setting(flag@),
        ensures
            final(self)@ == with_real(flag@, v@, old(self)@),
    {
        if spells(flag, "--freq-integral-gain") {
            self.freq_integral_gain = Some(v);
        } else if spells(flag, "--poll-down-ratio") {
            self.poll_down_ratio = Some(v);
        } else if spells(flag, "--weight-floor-ratio") {
            self.weight_floor_ratio = Some(v);
        } else if spells(flag, "--offset-weight-floor-ratio") {
            self.offset_weight_floor_ratio = Some(v);
        } else if spells(flag, "--offset-age-halflife") {
            self.offset_age_halflife = Some(v);
        } else if spells(flag, "--offset-weight-dispersion-k") {
            self.offset_weight_dispersion_k = Some(v);
        } else if spells(flag, "--corr-ratio") {
            self.corr_ratio = Some(v);
        } else if spells(flag, "--corr-time") {
            self.corr_time = Some(v);
        } else {
            self.corr_time_max = Some(v);
        }
    }
}

fn real_setting(flag: &[char]) -> (yes: bool)
    ensures
        yes == is_real_setting(flag@),
{
    spells(flag, "--freq-integral-gain") || spells(flag, "--poll-down-ratio") || spells(
        flag,
        "--weight-floor-ratio",
    ) || spells(flag, "--offset-weight-floor-ratio") || spells(flag, "--offset-age-halflife")
        || spells(flag, "--offset-weight-dispersion-k") || spells(flag, "--corr-ratio") || spells(
        flag,
        "--corr-time",
    ) || spells(flag, "--corr-time-max")
}

impl SyncOptions {
    /// Read a command line.
    pub fn parse(args: &[String]) -> (opts: Result<SyncOptions, String>)
        ensures
            match sync_of(texts(args@)) {
                Ok(v) => opts is Ok && opts->Ok_0@ == v,
                Err(e) => opts is Err && opts->Err_0@ == e,
            },
    {
        let ghost all = texts(args@);
        let mut opts = SyncOptions {
            servers: Vec::new(),
            port: 123,
            dry_run: false,
            run_seconds: 0,
            discipline: DisciplineOptions {
                min_poll: 6,
                max_poll: 10,
                makestep_threshold: Some("1.0".to_owned()),
                makestep_limit: 3,
                iburst: true,
                slope_density_weighting: false,
                poll_up_streak: 3,
                leap_mode: None,
                max_change: None,
                freq_integral_gain: None,
                poll_down_ratio: None,
                weight_floor_ratio: None,
                offset_weight_floor_ratio: None,
                offset_age_halflife: None,
                offset_weight_dispersion_k: None,
                corr_ratio: None,
                corr_time: None,
                corr_time_max: None,
            },
            timeout_ms: 2000,
            verbose: false,
        };
        assert(opts@.servers =~= Seq::empty());
        assert(opts@ == sync_defaults());
        let ghost goal = with_sync_args(all, sync_defaults());
        assert(all.skip(0) =~= all);
        let mut at: usize = 0;
        while at < args.len()
            invariant
                at <= args@.len(),
                all == texts(args@),
                goal == with_sync_args(all, sync_defaults()),
                goal == with_sync_args(all.skip(at as int), opts@),
            decreases args@.len() - at,
        {
            let ghost rest = all.skip(at as int);
            match opts.take_arg(args, at) {
                Ok(taken) => {
                    assert(rest.skip(taken as int) =~= all.skip(at + taken));
                    at = at + taken;
                },
                Err(e) => {
                    return Err(e);
                },
            }
        }
        assert(all.skip(at as int) =~= Seq::empty());
        if opts.servers.len() == 0 {
            return Err("at least one server is required".to_owned());
        }
        Ok(opts)
    }

    /// Take the argument at `at`, and its values.
    fn take_arg(&mut self, args: &[String], at: usize) -> (taken: Result<usize, String>)
        requires
            at < args@.len(),
        ensures
            match sync_arg(texts(args@).skip(at as int), old(self)@) {
                Ok((next, n)) => taken is Ok && taken->Ok_0 == n && final(self)@ == next && 0 < n
                    && at + n <= args@.len(),
                Err(e) => taken is Err && taken->Err_0@ == e,
            },
    {
        let word: Vec<char> = chars_of(args[at].as_str());
        let arg: &[char] = word.as_slice();
        assert(texts(args@).skip(at as int)[0] == arg@);
        if spells(arg, "--dry-run") {
            self.dry_run = true;
            return Ok(1);
        }
        if spells(arg, "--verbose") || spells(arg, "-v") {
            self.verbose = true;
            return Ok(1);
        }
        if spells(arg, "--slope-density") {
            self.discipline.slope_density_weighting = true;
            return Ok(1);
        }
        if spells(arg, "--no-makestep") {
            self.discipline.makestep_threshold = None;
            return Ok(1);
        }
        if spells(arg, "--no-iburst") {
            self.discipline.iburst = false;
            return Ok(1);
        }
        if spells(arg, "--port") {
            return match read_natural(args, at, arg, u16::MAX as u64) {
                Err(e) => Err(e),
                Ok(n) => {
                    self.port = n as u16;
                    Ok(2)
                },
            };
        }
        if spells(arg, "--seconds") {
            return match read_natural(args, at, arg, u64::MAX) {
                Err(e) => Err(e),
                Ok(n) => {
                    self.run_seconds = n;
                    Ok(2)
                },
            };
        }
        if spells(arg, "--timeout-ms") {
            return match read_natural(args, at, arg, u64::MAX) {
                Err(e) => Err(e),
                Ok(n) => {
                    self.timeout_ms = n;
                    Ok(2)
                },
            };
        }
        if spells(arg, "--minpoll") {
            return match read_integer(args, at, arg, -128, 127) {
                Err(e) => Err(e),
                Ok(n) => {
                    self.discipline.min_poll = n as i8;
                    Ok(2)
                },
            };
        }
        if spells(arg, "--maxpoll") {
            return match read_integer(args, at, arg, -128, 127) {
                Err(e) => Err(e),
                Ok(n) => {
                    self.discipline.max_poll = n as i8;
                    Ok(2)
                },
            };
        }
        if spells(arg, "--poll-up-streak") {
            return match read_natural(args, at, arg, u32::MAX as u64) {
                Err(e) => Err(e),
                Ok(n) => {
                    self.discipline.poll_up_streak = n as u32;
                    Ok(2)
                },
            };
        }
        if spells(arg, "--makestep") {
            return match read_makestep(args, at, arg) {
                Err(e) => Err(e),
                Ok((threshold, limit)) => {
                    self.discipline.makestep_threshold = Some(threshold);
                    self.discipline.makestep_limit = limit;
                    Ok(3)
                },
            };
        }
        if spells(arg, "--maxchange") {
            return match read_maxchange(args, at, arg) {
                Err(e) => Err(e),
                Ok(m) => {
                    self.discipline.max_change = Some(m);
                    Ok(4)
                },
            };
        }
        if spells(arg, "--leapsecmode") {
            return match read_value(args, at, arg) {
                Err(e) => Err(e),
                Ok(name) => match read_leap_mode(name.as_slice()) {
                    Err(e) => Err(e),
                    Ok(mode) => {
                        self.discipline.leap_mode = Some(mode);
                        Ok(2)
                    },
                },
            };
        }
        if real_setting(arg) {
            return match read_real(args, at, arg) {
                Err(e) => Err(e),
                Ok(v) => {
                    self.discipline.set_real(arg, v);
                    Ok(2)
                },
            };
        }
        if written_as_flag(arg) {
            return Err(not_known(arg));
        }
        let ghost before = self.servers@;
        let server: String = string_of(arg);
        self.servers.push(server);
        assert(texts(self.servers@) =~= texts(before).push(server@));
        Ok(1)
    }
}

} // verus!
