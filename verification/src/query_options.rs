//! The command line of a one-shot measurement.

use vstd::prelude::*;
use vstd::string::StringExecFns;

use crate::config::texts;
use crate::flags::{is_flag, lacks_value, missing_value, not_known, unknown_flag, written_as_flag};
use crate::numbers::{natural_value, parse_natural};
use crate::text::{chars_of, spells, string_of};

verus! {

#[derive(Debug)]
pub struct Options {
    pub server: String,
    pub count: u32,
    pub interval_ms: u64,
    pub timeout_ms: u64,
    pub port: u16,
    pub json: bool,
}

/// The options as a value.
pub ghost struct QueryValue {
    pub server: Seq<char>,
    pub count: u32,
    pub interval_ms: u64,
    pub timeout_ms: u64,
    pub port: u16,
    pub json: bool,
}

impl View for Options {
    type V = QueryValue;

    open spec fn view(&self) -> QueryValue {
        QueryValue {
            server: self.server@,
            count: self.count,
            interval_ms: self.interval_ms,
            timeout_ms: self.timeout_ms,
            port: self.port,
            json: self.json,
        }
    }
}

/// The number that follows the flag at the front of `args`, at most `max`.
pub open spec fn flag_number(args: Seq<Seq<char>>, max: nat) -> Result<nat, Seq<char>> {
    if args.len() < 2 {
        Err(lacks_value(args[0]))
    } else {
        match natural_value(args[1]) {
            Some(n) if n <= max => Ok(n),
            _ => Err(args[0] + ": cannot parse value"@),
        }
    }
}

/// The options with the flags of `args` added.
pub open spec fn with_query_flags(args: Seq<Seq<char>>, opts: QueryValue) -> Result<
    QueryValue,
    Seq<char>,
>
    decreases args.len(),
{
    if args.len() == 0 {
        Ok(opts)
    } else if args[0] == "--json"@ {
        with_query_flags(args.skip(1), QueryValue { json: true, ..opts })
    } else if args[0] == "--count"@ {
        match flag_number(args, u32::MAX as nat) {
            Err(e) => Err(e),
            Ok(n) => with_query_flags(args.skip(2), QueryValue { count: n as u32, ..opts }),
        }
    } else if args[0] == "--interval-ms"@ {
        match flag_number(args, u64::MAX as nat) {
            Err(e) => Err(e),
            Ok(n) => with_query_flags(args.skip(2), QueryValue { interval_ms: n as u64, ..opts }),
        }
    } else if args[0] == "--timeout-ms"@ {
        match flag_number(args, u64::MAX as nat) {
            Err(e) => Err(e),
            Ok(n) => with_query_flags(args.skip(2), QueryValue { timeout_ms: n as u64, ..opts }),
        }
    } else if args[0] == "--port"@ {
        match flag_number(args, u16::MAX as nat) {
            Err(e) => Err(e),
            Ok(n) => with_query_flags(args.skip(2), QueryValue { port: n as u16, ..opts }),
        }
    } else {
        Err(unknown_flag(args[0]))
    }
}

/// What a command line asks for.
pub open spec fn query_of(args: Seq<Seq<char>>) -> Result<QueryValue, Seq<char>> {
    if args.len() == 0 || is_flag(args[0]) {
        Err("a server name is required"@)
    } else {
        let plain = QueryValue {
            server: args[0],
            count: 4,
            interval_ms: 1000,
            timeout_ms: 2000,
            port: 123,
            json: false,
        };
        match with_query_flags(args.skip(1), plain) {
            Err(e) => Err(e),
            Ok(opts) => if 1 <= opts.count <= 64 {
                Ok(opts)
            } else {
                Err("--count must be 1..=64"@)
            },
        }
    }
}

/// The number after the flag at `at`.
fn num(args: &[String], at: usize, flag: &[char], max: u64) -> (n: Result<u64, String>)
    requires
        at < args@.len(),
        flag@ == args@[at as int]@,
    ensures
        match flag_number(texts(args@).skip(at as int), max as nat) {
            Ok(v) => n is Ok && n->Ok_0 == v && at + 1 < args@.len(),
            Err(e) => n is Err && n->Err_0@ == e,
        },
{
    let ghost rest = texts(args@).skip(at as int);
    assert(rest[0] == flag@);
    if args.len() - at < 2 {
        return Err(missing_value(flag));
    }
    let value: Vec<char> = chars_of(args[at + 1].as_str());
    assert(rest[1] == value@);
    match parse_natural(value.as_slice(), max) {
        Some(v) => Ok(v),
        None => {
            let mut message: String = string_of(flag);
            message.append(": cannot parse value");
            Err(message)
        },
    }
}

impl Options {
    pub fn parse(args: &[String]) -> (opts: Result<Options, String>)
        ensures
            match query_of(texts(args@)) {
                Ok(v) => opts is Ok && opts->Ok_0@ == v,
                Err(e) => opts is Err && opts->Err_0@ == e,
            },
    {
        let ghost all = texts(args@);
        if args.len() == 0 {
            return Err("a server name is required".to_owned());
        }
        let first: Vec<char> = chars_of(args[0].as_str());
        assert(all[0] == first@);
        if written_as_flag(first.as_slice()) {
            return Err("a server name is required".to_owned());
        }
        let mut opts = Options {
            server: string_of(first.as_slice()),
            count: 4,
            interval_ms: 1000,
            timeout_ms: 2000,
            port: 123,
            json: false,
        };
        let ghost goal = with_query_flags(all.skip(1), opts@);
        let mut at: usize = 1;
        while at < args.len()
            invariant
                1 <= at <= args@.len(),
                all == texts(args@),
                goal == with_query_flags(all.skip(at as int), opts@),
                !is_flag(all[0]),
                query_of(all) == match goal {
                    Err(e) => Err(e),
                    Ok(o) => if 1 <= o.count <= 64 {
                        Ok(o)
                    } else {
                        Err("--count must be 1..=64"@)
                    },
                },
            decreases args@.len() - at,
        {
            let ghost rest = all.skip(at as int);
            let flag: Vec<char> = chars_of(args[at].as_str());
            proof {
                assert(rest[0] == flag@);
                assert(rest.skip(1) =~= all.skip(at + 1));
                if at + 2 <= args@.len() {
                    assert(rest.skip(2) =~= all.skip(at + 2));
                }
            }
            if spells(flag.as_slice(), "--json") {
                opts.json = true;
                at = at + 1;
            } else if spells(flag.as_slice(), "--count") {
                match num(args, at, flag.as_slice(), u32::MAX as u64) {
                    Ok(n) => {
                        opts.count = n as u32;
                    },
                    Err(e) => {
                        return Err(e);
                    },
                }
                at = at + 2;
            } else if spells(flag.as_slice(), "--interval-ms") {
                match num(args, at, flag.as_slice(), u64::MAX) {
                    Ok(n) => {
                        opts.interval_ms = n;
                    },
                    Err(e) => {
                        return Err(e);
                    },
                }
                at = at + 2;
            } else if spells(flag.as_slice(), "--timeout-ms") {
                match num(args, at, flag.as_slice(), u64::MAX) {
                    Ok(n) => {
                        opts.timeout_ms = n;
                    },
                    Err(e) => {
                        return Err(e);
                    },
                }
                at = at + 2;
            } else if spells(flag.as_slice(), "--port") {
                match num(args, at, flag.as_slice(), u16::MAX as u64) {
                    Ok(n) => {
                        opts.port = n as u16;
                    },
                    Err(e) => {
                        return Err(e);
                    },
                }
                at = at + 2;
            } else {
                return Err(not_known(flag.as_slice()));
            }
        }
        assert(all.skip(at as int) =~= Seq::empty());
        if opts.count == 0 || opts.count > 64 {
            return Err("--count must be 1..=64".to_owned());
        }
        Ok(opts)
    }
}

} // verus!
