//! The configuration file: chrony.conf directives, the documented subset.
//!
//! Unknown directives are collected, never fatal: what is dropped is reported,
//! not silently eaten. Real-valued settings are kept as the text that was
//! checked to be a real number.

use vstd::prelude::*;
use vstd::string::StringExecFns;

use crate::numbers::{integer_value, is_real, parse_integer, reads_as_real};
use crate::text::{
    chars_of, lines, lowered, spells, split_lines, split_words, string_of, to_lower, views, words,
};

verus! {

#[derive(Debug)]
pub struct ServerDirective {
    pub host: String,
    pub is_pool: bool,
    pub iburst: bool,
    pub min_poll: Option<i8>,
    pub max_poll: Option<i8>,
}

#[derive(Debug)]
pub struct Config {
    pub servers: Vec<ServerDirective>,
    /// (threshold seconds, update limit): `makestep`.
    pub makestep: Option<(String, u32)>,
    /// `maxslewrate`, ppm.
    pub max_slew_ppm: Option<String>,
    pub allow: Vec<String>,
    pub deny: Vec<String>,
    /// Directives and options that are not implemented, with line numbers
    /// (1-based).
    pub ignored: Vec<(usize, String)>,
}

#[derive(Debug)]
pub struct ConfigError {
    pub line: usize,
    pub message: String,
}

/// A server directive as a value.
pub ghost struct ServerValue {
    pub host: Seq<char>,
    pub is_pool: bool,
    pub iburst: bool,
    pub min_poll: Option<i8>,
    pub max_poll: Option<i8>,
}

/// A configuration as a value.
pub ghost struct ConfigValue {
    pub servers: Seq<ServerValue>,
    pub makestep: Option<(Seq<char>, u32)>,
    pub max_slew_ppm: Option<Seq<char>>,
    pub allow: Seq<Seq<char>>,
    pub deny: Seq<Seq<char>>,
    pub ignored: Seq<(nat, Seq<char>)>,
}

/// A configuration error as a value: the line, and what is wrong with it.
pub ghost struct Complaint {
    pub line: nat,
    pub message: Seq<char>,
}

impl View for ServerDirective {
    type V = ServerValue;

    open spec fn view(&self) -> ServerValue {
        ServerValue {
            host: self.host@,
            is_pool: self.is_pool,
            iburst: self.iburst,
            min_poll: self.min_poll,
            max_poll: self.max_poll,
        }
    }
}

/// The texts of several strings.
pub open spec fn texts(v: Seq<String>) -> Seq<Seq<char>> {
    v.map_values(|s: String| s@)
}

/// Line numbers and texts.
pub open spec fn notes(v: Seq<(usize, String)>) -> Seq<(nat, Seq<char>)> {
    v.map_values(|n: (usize, String)| (n.0 as nat, n.1@))
}

impl View for Config {
    type V = ConfigValue;

    open spec fn view(&self) -> ConfigValue {
        ConfigValue {
            servers: self.servers@.map_values(|s: ServerDirective| s@),
            makestep: match self.makestep {
                Some(m) => Some((m.0@, m.1)),
                None => None,
            },
            max_slew_ppm: match self.max_slew_ppm {
                Some(m) => Some(m@),
                None => None,
            },
            allow: texts(self.allow@),
            deny: texts(self.deny@),
            ignored: notes(self.ignored@),
        }
    }
}

impl View for ConfigError {
    type V = Complaint;

    open spec fn view(&self) -> Complaint {
        Complaint { line: self.line as nat, message: self.message@ }
    }
}

/// A configuration that says nothing.
pub open spec fn no_config() -> ConfigValue {
    ConfigValue {
        servers: Seq::empty(),
        makestep: None,
        max_slew_ppm: None,
        allow: Seq::empty(),
        deny: Seq::empty(),
        ignored: Seq::empty(),
    }
}

/// What is said of a setting that has no value.
pub open spec fn missing(what: Seq<char>) -> Seq<char> {
    what + " needs a value"@
}

/// What is said of a value that cannot be read.
pub open spec fn unreadable(what: Seq<char>, value: Seq<char>) -> Seq<char> {
    what + ": cannot parse '"@ + value + "'"@
}

/// Word number `i`, if there are that many.
pub open spec fn word_at(args: Seq<Seq<char>>, i: int) -> Option<Seq<char>> {
    if 0 <= i < args.len() {
        Some(args[i])
    } else {
        None
    }
}

/// An integer setting, from `min` to `max`.
pub open spec fn integer_setting(
    line: nat,
    what: Seq<char>,
    value: Option<Seq<char>>,
    min: int,
    max: int,
) -> Result<int, Complaint> {
    match value {
        None => Err(Complaint { line, message: missing(what) }),
        Some(v) => match integer_value(v) {
            Some(n) if min <= n <= max => Ok(n),
            _ => Err(Complaint { line, message: unreadable(what, v) }),
        },
    }
}

/// A real setting, as text.
pub open spec fn real_setting(line: nat, what: Seq<char>, value: Option<Seq<char>>) -> Result<
    Seq<char>,
    Complaint,
> {
    match value {
        None => Err(Complaint { line, message: missing(what) }),
        Some(v) => if is_real(v) {
            Ok(v)
        } else {
            Err(Complaint { line, message: unreadable(what, v) })
        },
    }
}

/// Whether an option that is not implemented takes a value, to be skipped too.
pub open spec fn takes_value(option: Seq<char>) -> bool {
    option == "key"@ || option == "maxdelay"@ || option == "maxdelayratio"@ || option == "presend"@
}

/// A server directive with the options in `opts` added, and what was ignored on
/// the way.
pub open spec fn with_options(
    line: nat,
    directive: Seq<char>,
    opts: Seq<Seq<char>>,
    server: ServerValue,
    ignored: Seq<(nat, Seq<char>)>,
) -> Result<(ServerValue, Seq<(nat, Seq<char>)>), Complaint>
    decreases opts.len(),
{
    if opts.len() == 0 {
        Ok((server, ignored))
    } else {
        let option = lowered(opts[0]);
        if option == "iburst"@ {
            with_options(
                line,
                directive,
                opts.skip(1),
                ServerValue { iburst: true, ..server },
                ignored,
            )
        } else if option == "minpoll"@ {
            match integer_setting(line, "minpoll"@, word_at(opts, 1), -128, 127) {
                Err(e) => Err(e),
                Ok(n) => with_options(
                    line,
                    directive,
                    opts.skip(2),
                    ServerValue { min_poll: Some(n as i8), ..server },
                    ignored,
                ),
            }
        } else if option == "maxpoll"@ {
            match integer_setting(line, "maxpoll"@, word_at(opts, 1), -128, 127) {
                Err(e) => Err(e),
                Ok(n) => with_options(
                    line,
                    directive,
                    opts.skip(2),
                    ServerValue { max_poll: Some(n as i8), ..server },
                    ignored,
                ),
            }
        } else {
            let noted = ignored.push((line, directive + " option '"@ + option + "'"@));
            if takes_value(option) && opts.len() > 1 {
                with_options(line, directive, opts.skip(2), server, noted)
            } else {
                with_options(line, directive, opts.skip(1), server, noted)
            }
        }
    }
}

/// The update limit that a number stands for: a negative one means always.
pub open spec fn step_limit(n: int) -> u32 {
    if n < 0 {
        u32::MAX
    } else {
        (n % 0x1_0000_0000) as u32
    }
}

/// A configuration with one more line read.
pub open spec fn with_line(config: ConfigValue, line: nat, text: Seq<char>) -> Result<
    ConfigValue,
    Complaint,
> {
    let found = words(text);
    if found.len() == 0 || is_comment(found[0]) {
        Ok(config)
    } else {
        let directive = lowered(found[0]);
        let args = found.skip(1);
        if directive == "server"@ || directive == "pool"@ {
            if args.len() == 0 {
                Err(Complaint { line, message: directive + " needs a host"@ })
            } else {
                let plain = ServerValue {
                    host: args[0],
                    is_pool: directive == "pool"@,
                    iburst: false,
                    min_poll: None,
                    max_poll: None,
                };
                match with_options(line, directive, args.skip(1), plain, config.ignored) {
                    Err(e) => Err(e),
                    Ok((server, ignored)) => Ok(
                        ConfigValue { servers: config.servers.push(server), ignored, ..config },
                    ),
                }
            }
        } else if directive == "makestep"@ {
            match real_setting(line, "makestep threshold"@, word_at(args, 0)) {
                Err(e) => Err(e),
                Ok(threshold) => match integer_setting(
                    line,
                    "makestep limit"@,
                    word_at(args, 1),
                    i64::MIN as int,
                    i64::MAX as int,
                ) {
                    Err(e) => Err(e),
                    Ok(n) => Ok(
                        ConfigValue { makestep: Some((threshold, step_limit(n))), ..config },
                    ),
                },
            }
        } else if directive == "maxslewrate"@ {
            match real_setting(line, "maxslewrate"@, word_at(args, 0)) {
                Err(e) => Err(e),
                Ok(rate) => Ok(ConfigValue { max_slew_ppm: Some(rate), ..config }),
            }
        } else if directive == "allow"@ {
            Ok(ConfigValue { allow: config.allow.push(first_or_all(args)), ..config })
        } else if directive == "deny"@ {
            Ok(ConfigValue { deny: config.deny.push(first_or_all(args)), ..config })
        } else {
            Ok(ConfigValue { ignored: config.ignored.push((line, directive)), ..config })
        }
    }
}

/// Whether a word starts a comment.
pub open spec fn is_comment(word: Seq<char>) -> bool {
    word.len() > 0 && (word[0] == '!' || word[0] == ';' || word[0] == '#' || word[0] == '%')
}

/// The first word, or "all" where there is none.
pub open spec fn first_or_all(args: Seq<Seq<char>>) -> Seq<char> {
    if args.len() == 0 {
        "all"@
    } else {
        args[0]
    }
}

/// A configuration with several lines read, the first of them being line
/// `first`.
pub open spec fn with_lines(config: ConfigValue, first: nat, texts: Seq<Seq<char>>) -> Result<
    ConfigValue,
    Complaint,
>
    decreases texts.len(),
{
    if texts.len() == 0 {
        Ok(config)
    } else {
        match with_line(config, first, texts[0]) {
            Err(e) => Err(e),
            Ok(next) => with_lines(next, first + 1, texts.skip(1)),
        }
    }
}

/// What a configuration text says.
pub open spec fn config_of(text: Seq<char>) -> Result<ConfigValue, Complaint> {
    with_lines(no_config(), 1, lines(text))
}

fn err(line: usize, message: String) -> (e: ConfigError)
    ensures
        e@ == (Complaint { line: line as nat, message: message@ }),
{
    ConfigError { line, message }
}

fn joined(a: &str, b: &str) -> (s: String)
    ensures
        s@ == a@ + b@,
{
    let mut s: String = a.to_owned();
    s.append(b);
    s
}

fn missing_value(line: usize, what: &str) -> (e: ConfigError)
    ensures
        e@ == (Complaint { line: line as nat, message: missing(what@) }),
{
    err(line, joined(what, " needs a value"))
}

fn unreadable_value(line: usize, what: &str, value: &Vec<char>) -> (e: ConfigError)
    ensures
        e@ == (Complaint { line: line as nat, message: unreadable(what@, value@) }),
{
    let mut message: String = joined(what, ": cannot parse '");
    message.append(string_of(value.as_slice()).as_str());
    message.append("'");
    err(line, message)
}

/// The integer at word `i`, from `min` to `max`.
fn parse_num(
    line: usize,
    what: &str,
    args: &Vec<Vec<char>>,
    i: usize,
    min: i64,
    max: i64,
) -> (n: Result<i64, ConfigError>)
    requires
        min <= 0 <= max,
    ensures
        match integer_setting(
            line as nat,
            what@,
            word_at(views(args@), i as int),
            min as int,
            max as int,
        ) {
            Ok(v) => n is Ok && n->Ok_0 == v,
            Err(e) => n is Err && n->Err_0@ == e,
        },
{
    if i >= args.len() {
        return Err(missing_value(line, what));
    }
    match parse_integer(args[i].as_slice(), min, max) {
        Some(v) => Ok(v),
        None => Err(unreadable_value(line, what, &args[i])),
    }
}

/// The real number at word `i`, as text.
fn parse_real(line: usize, what: &str, args: &Vec<Vec<char>>, i: usize) -> (n: Result<
    String,
    ConfigError,
>)
    ensures
        match real_setting(line as nat, what@, word_at(views(args@), i as int)) {
            Ok(v) => n is Ok && n->Ok_0@ == v,
            Err(e) => n is Err && n->Err_0@ == e,
        },
{
    if i >= args.len() {
        return Err(missing_value(line, what));
    }
    if reads_as_real(args[i].as_slice()) {
        Ok(string_of(args[i].as_slice()))
    } else {
        Err(unreadable_value(line, what, &args[i]))
    }
}

/// Read the options of a server directive, from word `from` on.
fn parse_options(
    line: usize,
    directive: &Vec<char>,
    args: &Vec<Vec<char>>,
    from: usize,
    plain: ServerDirective,
    ignored: &mut Vec<(usize, String)>,
) -> (server: Result<ServerDirective, ConfigError>)
    requires
        from <= args@.len(),
    ensures
        match with_options(
            line as nat,
            directive@,
            views(args@).skip(from as int),
            plain@,
            notes(old(ignored)@),
        ) {
            Ok((s, noted)) => server is Ok && server->Ok_0@ == s && notes(final(ignored)@) == noted,
            Err(e) => server is Err && server->Err_0@ == e,
        },
{
    let mut server: ServerDirective = plain;
    let mut at: usize = from;
    let ghost goal = with_options(
        line as nat,
        directive@,
        views(args@).skip(from as int),
        plain@,
        notes(ignored@),
    );
    while at < args.len()
        invariant
            at <= args@.len(),
            goal == with_options(
                line as nat,
                directive@,
                views(args@).skip(from as int),
                plain@,
                notes(old(ignored)@),
            ),
            goal == with_options(
                line as nat,
                directive@,
                views(args@).skip(at as int),
                server@,
                notes(ignored@),
            ),
        decreases args@.len() - at,
    {
        let ghost opts = views(args@).skip(at as int);
        let low: Vec<char> = to_lower(args[at].as_slice());
        proof {
            assert(opts[0] == args@[at as int]@);
            assert(opts.skip(1) =~= views(args@).skip(at + 1));
            if at + 1 < args@.len() {
                assert(opts[1] == args@[at + 1]@);
                assert(opts.skip(2) =~= views(args@).skip(at + 2));
            }
            assert(word_at(opts, 1) == word_at(views(args@), at + 1));
        }
        if spells(low.as_slice(), "iburst") {
            server.iburst = true;
            at = at + 1;
        } else if spells(low.as_slice(), "minpoll") {
            match parse_num(line, "minpoll", args, at + 1, -128, 127) {
                Ok(n) => {
                    server.min_poll = Some(n as i8);
                    at = at + 2;
                },
                Err(e) => {
                    return Err(e);
                },
            }
        } else if spells(low.as_slice(), "maxpoll") {
            match parse_num(line, "maxpoll", args, at + 1, -128, 127) {
                Ok(n) => {
                    server.max_poll = Some(n as i8);
                    at = at + 2;
                },
                Err(e) => {
                    return Err(e);
                },
            }
        } else {
            let ghost before = ignored@;
            let mut note: String = string_of(directive.as_slice());
            note.append(" option '");
            note.append(string_of(low.as_slice()).as_str());
            note.append("'");
            ignored.push((line, note));
            assert(notes(ignored@) =~= notes(before).push((line as nat, note@)));
            let valued: bool = spells(low.as_slice(), "key") || spells(low.as_slice(), "maxdelay")
                || spells(low.as_slice(), "maxdelayratio") || spells(low.as_slice(), "presend");
            if valued && at + 1 < args.len() {
                at = at + 2;
            } else {
                at = at + 1;
            }
        }
    }
    assert(views(args@).skip(at as int) =~= Seq::empty());
    Ok(server)
}


/// Read one line into a configuration.
fn parse_line(config: &mut Config, line: usize, text: &Vec<char>) -> (done: Result<(), ConfigError>)
    ensures
        match with_line(old(config)@, line as nat, text@) {
            Ok(next) => done is Ok && final(config)@ == next,
            Err(e) => done is Err && done->Err_0@ == e,
        },
{
    let found: Vec<Vec<char>> = split_words(text.as_slice());
    if found.len() == 0 {
        return Ok(());
    }
    let ghost all = words(text@);
    assert(all[0] == found@[0]@);
    if found[0].len() > 0 && (found[0][0] == '!' || found[0][0] == ';' || found[0][0] == '#'
        || found[0][0] == '%') {
        return Ok(());
    }
    let ghost args = all.skip(1);
    let low: Vec<char> = to_lower(found[0].as_slice());
    proof {
        if found@.len() > 1 {
            assert(args[0] == found@[1]@);
            assert(args.skip(1) =~= views(found@).skip(2));
        }
        assert(word_at(args, 0) == word_at(views(found@), 1));
        assert(word_at(args, 1) == word_at(views(found@), 2));
    }
    let pool: bool = spells(low.as_slice(), "pool");
    if pool || spells(low.as_slice(), "server") {
        if found.len() < 2 {
            return Err(err(line, joined(string_of(low.as_slice()).as_str(), " needs a host")));
        }
        let plain = ServerDirective {
            host: string_of(found[1].as_slice()),
            is_pool: pool,
            iburst: false,
            min_poll: None,
            max_poll: None,
        };
        let ghost servers = config.servers@;
        match parse_options(line, &low, &found, 2, plain, &mut config.ignored) {
            Ok(server) => {
                config.servers.push(server);
                assert(config.servers@.map_values(|s: ServerDirective| s@)
                    =~= servers.map_values(|s: ServerDirective| s@).push(server@));
                Ok(())
            },
            Err(e) => Err(e),
        }
    } else if spells(low.as_slice(), "makestep") {
        match parse_real(line, "makestep threshold", &found, 1) {
            Err(e) => Err(e),
            Ok(threshold) => match parse_num(
                line,
                "makestep limit",
                &found,
                2,
                i64::MIN,
                i64::MAX,
            ) {
                Err(e) => Err(e),
                Ok(n) => {
                    let limit: u32 = if n < 0 {
                        u32::MAX
                    } else {
                        (n % 0x1_0000_0000) as u32
                    };
                    config.makestep = Some((threshold, limit));
                    Ok(())
                },
            },
        }
    } else if spells(low.as_slice(), "maxslewrate") {
        match parse_real(line, "maxslewrate", &found, 1) {
            Err(e) => Err(e),
            Ok(rate) => {
                config.max_slew_ppm = Some(rate);
                Ok(())
            },
        }
    } else if spells(low.as_slice(), "allow") {
        let ghost old_list = config.allow@;
        let entry: String = first_word_or_all(&found);
        config.allow.push(entry);
        assert(texts(config.allow@) =~= texts(old_list).push(entry@));
        Ok(())
    } else if spells(low.as_slice(), "deny") {
        let ghost old_list = config.deny@;
        let entry: String = first_word_or_all(&found);
        config.deny.push(entry);
        assert(texts(config.deny@) =~= texts(old_list).push(entry@));
        Ok(())
    } else {
        let ghost old_list = config.ignored@;
        let note: String = string_of(low.as_slice());
        config.ignored.push((line, note));
        assert(notes(config.ignored@) =~= notes(old_list).push((line as nat, note@)));
        Ok(())
    }
}

fn first_word_or_all(found: &Vec<Vec<char>>) -> (entry: String)
    requires
        found@.len() > 0,
    ensures
        entry@ == first_or_all(views(found@).skip(1)),
{
    if found.len() > 1 {
        assert(views(found@).skip(1)[0] == found@[1]@);
        string_of(found[1].as_slice())
    } else {
        "all".to_owned()
    }
}

/// Read a configuration text.
pub fn parse(text: &str) -> (config: Result<Config, ConfigError>)
    ensures
        match config_of(text@) {
            Ok(c) => config is Ok && config->Ok_0@ == c,
            Err(e) => config is Err && config->Err_0@ == e,
        },
{
    let mut config = Config {
        servers: Vec::new(),
        makestep: None,
        max_slew_ppm: None,
        allow: Vec::new(),
        deny: Vec::new(),
        ignored: Vec::new(),
    };
    proof {
        assert(config@.servers =~= Seq::empty());
        assert(config@.allow =~= Seq::empty());
        assert(config@.deny =~= Seq::empty());
        assert(config@.ignored =~= Seq::empty());
    }
    let found: Vec<Vec<char>> = split_lines(chars_of(text).as_slice());
    let ghost all = lines(text@);
    let mut i: usize = 0;
    assert(all.skip(0) =~= all);
    while i < found.len()
        invariant
            i <= found@.len(),
            views(found@) == all,
            all == lines(text@),
            config_of(text@) == with_lines(config@, (i + 1) as nat, all.skip(i as int)),
        decreases found@.len() - i,
    {
        proof {
            assert(all.skip(i as int)[0] == found@[i as int]@);
            assert(all.skip(i as int).skip(1) =~= all.skip(i + 1));
        }
        match parse_line(&mut config, i + 1, &found[i]) {
            Ok(()) => {},
            Err(e) => {
                return Err(e);
            },
        }
        i = i + 1;
    }
    assert(all.skip(i as int) =~= Seq::empty());
    Ok(config)
}

/// Reading a text never depends on what comes after the first line that is
/// wrong: the complaint is the one that line gives.
pub proof fn the_first_bad_line_is_reported(
    config: ConfigValue,
    first: nat,
    good: Seq<Seq<char>>,
    bad: Seq<char>,
    rest: Seq<Seq<char>>,
)
    requires
        with_lines(config, first, good) is Ok,
        with_line(with_lines(config, first, good)->Ok_0, first + good.len(), bad) is Err,
    ensures
        with_lines(config, first, good + seq![bad] + rest) == Err::<ConfigValue, Complaint>(
            with_line(with_lines(config, first, good)->Ok_0, first + good.len(), bad)->Err_0,
        ),
    decreases good.len(),
{
    let whole = good + seq![bad] + rest;
    if good.len() == 0 {
        assert(whole[0] == bad);
    } else {
        assert(whole[0] == good[0]);
        let next = with_line(config, first, good[0])->Ok_0;
        the_first_bad_line_is_reported(next, first + 1, good.skip(1), bad, rest);
        assert(whole.skip(1) =~= good.skip(1) + seq![bad] + rest);
    }
}

proof fn lemma_complaint_line(
    line: nat,
    directive: Seq<char>,
    opts: Seq<Seq<char>>,
    server: ServerValue,
    ignored: Seq<(nat, Seq<char>)>,
)
    ensures
        match with_options(line, directive, opts, server, ignored) {
            Ok((_, noted)) => ignored.len() <= noted.len() && noted.take(ignored.len() as int)
                == ignored,
            Err(e) => e.line == line,
        },
    decreases opts.len(),
{
    if opts.len() == 0 {
        assert(ignored.take(ignored.len() as int) =~= ignored);
    } else {
        let option = lowered(opts[0]);
        let noted = ignored.push((line, directive + " option '"@ + option + "'"@));
        assert(noted.take(ignored.len() as int) =~= ignored);
        if option == "iburst"@ {
            lemma_complaint_line(
                line,
                directive,
                opts.skip(1),
                ServerValue { iburst: true, ..server },
                ignored,
            );
        } else if option == "minpoll"@ {
            if let Ok(n) = integer_setting(line, "minpoll"@, word_at(opts, 1), -128, 127) {
                lemma_complaint_line(
                    line,
                    directive,
                    opts.skip(2),
                    ServerValue { min_poll: Some(n as i8), ..server },
                    ignored,
                );
            }
        } else if option == "maxpoll"@ {
            if let Ok(n) = integer_setting(line, "maxpoll"@, word_at(opts, 1), -128, 127) {
                lemma_complaint_line(
                    line,
                    directive,
                    opts.skip(2),
                    ServerValue { max_poll: Some(n as i8), ..server },
                    ignored,
                );
            }
        } else {
            let skipped = if takes_value(option) && opts.len() > 1 {
                opts.skip(2)
            } else {
                opts.skip(1)
            };
            lemma_complaint_line(line, directive, skipped, server, noted);
            if let Ok((_, all)) = with_options(line, directive, skipped, server, noted) {
                assert(all.take(ignored.len() as int) =~= noted.take(ignored.len() as int));
            }
        }
    }
}

/// A complaint names the line it is about, and nothing that was set aside is
/// ever dropped from the report by a later line.
pub proof fn a_line_reports_itself(config: ConfigValue, line: nat, text: Seq<char>)
    ensures
        match with_line(config, line, text) {
            Ok(next) => config.ignored.len() <= next.ignored.len() && next.ignored.take(
                config.ignored.len() as int,
            ) == config.ignored,
            Err(e) => e.line == line,
        },
{
    let found = words(text);
    assert(config.ignored.take(config.ignored.len() as int) =~= config.ignored);
    if found.len() > 0 && !is_comment(found[0]) {
        let directive = lowered(found[0]);
        let args = found.skip(1);
        if args.len() > 0 {
            let plain = ServerValue {
                host: args[0],
                is_pool: directive == "pool"@,
                iburst: false,
                min_poll: None,
                max_poll: None,
            };
            lemma_complaint_line(line, directive, args.skip(1), plain, config.ignored);
        }
        let noted = config.ignored.push((line, directive));
        assert(noted.take(config.ignored.len() as int) =~= config.ignored);
    }
}

} // verus!
