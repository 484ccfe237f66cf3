//! What the command lines have in common: flags, the values that follow them,
//! and the complaints about either.

use vstd::prelude::*;
use vstd::string::StringExecFns;

use crate::config::texts;
use crate::numbers::{
    integer_value, is_real, natural_value, parse_integer, parse_natural, reads_as_real,
};
use crate::text::{chars_of, string_of};

verus! {

/// Whether an argument is written as a flag.
pub open spec fn is_flag(arg: Seq<char>) -> bool {
    arg.len() >= 2 && arg[0] == '-' && arg[1] == '-'
}

/// What is said of a flag that ends the command line but needs a value.
pub open spec fn lacks_value(flag: Seq<char>) -> Seq<char> {
    flag + " needs a value"@
}

/// What is said of a flag that is not known.
pub open spec fn unknown_flag(flag: Seq<char>) -> Seq<char> {
    "unknown flag '"@ + flag + "'"@
}

/// What is said of a value that is not a number.
pub open spec fn not_a_number(flag: Seq<char>) -> Seq<char> {
    flag + ": not a number"@
}

/// The value that follows the flag at the front of `args`.
pub open spec fn flag_value(args: Seq<Seq<char>>) -> Result<Seq<char>, Seq<char>> {
    if args.len() < 2 {
        Err(lacks_value(args[0]))
    } else {
        Ok(args[1])
    }
}

/// A natural number that follows a flag, at most `max`.
pub open spec fn flag_natural(args: Seq<Seq<char>>, max: nat) -> Result<nat, Seq<char>> {
    match flag_value(args) {
        Err(e) => Err(e),
        Ok(v) => match natural_value(v) {
            Some(n) if n <= max => Ok(n),
            _ => Err(not_a_number(args[0])),
        },
    }
}

/// An integer that follows a flag, from `min` to `max`.
pub open spec fn flag_integer(args: Seq<Seq<char>>, min: int, max: int) -> Result<int, Seq<char>> {
    match flag_value(args) {
        Err(e) => Err(e),
        Ok(v) => match integer_value(v) {
            Some(n) if min <= n <= max => Ok(n),
            _ => Err(not_a_number(args[0])),
        },
    }
}

/// A real number that follows a flag, as text.
pub open spec fn flag_real(args: Seq<Seq<char>>) -> Result<Seq<char>, Seq<char>> {
    match flag_value(args) {
        Err(e) => Err(e),
        Ok(v) => if is_real(v) {
            Ok(v)
        } else {
            Err(not_a_number(args[0]))
        },
    }
}

/// Whether an argument is written as a flag.
pub(crate) fn written_as_flag(arg: &[char]) -> (yes: bool)
    ensures
        yes == is_flag(arg@),
{
    arg.len() >= 2 && arg[0] == '-' && arg[1] == '-'
}

/// The complaint about a flag without its value.
pub(crate) fn missing_value(flag: &[char]) -> (message: String)
    ensures
        message@ == lacks_value(flag@),
{
    let mut message: String = string_of(flag);
    message.append(" needs a value");
    message
}

/// The complaint about a flag that is not known.
pub(crate) fn not_known(flag: &[char]) -> (message: String)
    ensures
        message@ == unknown_flag(flag@),
{
    let mut message: String = "unknown flag '".to_owned();
    message.append(string_of(flag).as_str());
    message.append("'");
    message
}

fn number_expected(flag: &[char]) -> (message: String)
    ensures
        message@ == not_a_number(flag@),
{
    let mut message: String = string_of(flag);
    message.append(": not a number");
    message
}

/// The value after the flag at `at`.
pub(crate) fn read_value(args: &[String], at: usize, flag: &[char]) -> (v: Result<Vec<char>, String>)
    requires
        at < args@.len(),
        flag@ == args@[at as int]@,
    ensures
        match flag_value(texts(args@).skip(at as int)) {
            Ok(t) => v is Ok && v->Ok_0@ == t && at + 1 < args@.len(),
            Err(e) => v is Err && v->Err_0@ == e,
        },
{
    let ghost rest = texts(args@).skip(at as int);
    assert(rest[0] == flag@);
    if args.len() - at < 2 {
        return Err(missing_value(flag));
    }
    let value: Vec<char> = chars_of(args[at + 1].as_str());
    assert(rest[1] == value@);
    Ok(value)
}

/// The natural number after the flag at `at`.
pub(crate) fn read_natural(args: &[String], at: usize, flag: &[char], max: u64) -> (n: Result<
    u64,
    String,
>)
    requires
        at < args@.len(),
        flag@ == args@[at as int]@,
    ensures
        match flag_natural(texts(args@).skip(at as int), max as nat) {
            Ok(v) => n is Ok && n->Ok_0 == v && at + 1 < args@.len(),
            Err(e) => n is Err && n->Err_0@ == e,
        },
{
    assert(texts(args@).skip(at as int)[0] == flag@);
    match read_value(args, at, flag) {
        Err(e) => Err(e),
        Ok(value) => match parse_natural(value.as_slice(), max) {
            Some(v) => Ok(v),
            None => Err(number_expected(flag)),
        },
    }
}

/// The integer after the flag at `at`.
pub(crate) fn read_integer(args: &[String], at: usize, flag: &[char], min: i64, max: i64) -> (n:
    Result<i64, String>)
    requires
        at < args@.len(),
        flag@ == args@[at as int]@,
        min <= 0 <= max,
    ensures
        match flag_integer(texts(args@).skip(at as int), min as int, max as int) {
            Ok(v) => n is Ok && n->Ok_0 == v && at + 1 < args@.len(),
            Err(e) => n is Err && n->Err_0@ == e,
        },
{
    assert(texts(args@).skip(at as int)[0] == flag@);
    match read_value(args, at, flag) {
        Err(e) => Err(e),
        Ok(value) => match parse_integer(value.as_slice(), min, max) {
            Some(v) => Ok(v),
            None => Err(number_expected(flag)),
        },
    }
}

/// The real number after the flag at `at`, as text.
pub(crate) fn read_real(args: &[String], at: usize, flag: &[char]) -> (n: Result<String, String>)
    requires
        at < args@.len(),
        flag@ == args@[at as int]@,
    ensures
        match flag_real(texts(args@).skip(at as int)) {
            Ok(v) => n is Ok && n->Ok_0@ == v && at + 1 < args@.len(),
            Err(e) => n is Err && n->Err_0@ == e,
        },
{
    assert(texts(args@).skip(at as int)[0] == flag@);
    match read_value(args, at, flag) {
        Err(e) => Err(e),
        Ok(value) => if reads_as_real(value.as_slice()) {
            Ok(string_of(value.as_slice()))
        } else {
            Err(number_expected(flag))
        },
    }
}

} // verus!
