//! What holds at the edges: numbers as text, what a supervisor and a kernel say, the
//! requests of a browser, and where the control plane listens.

use vstd::arithmetic::div_mod::lemma_div_denominator;
use vstd::prelude::*;

use crate::api::{after_last_colon, bound_port, derived_port, explicit_port, fnv};
use crate::gateway::{
    is_acceptable, is_servable, kind_of, length_after, reason_of, route_of, unslashed, Route,
    MAX_HEADER_BYTES,
};
use crate::hex::hex_value;
use crate::numbers::{
    all_digits, decimal, decimal_reads_back, integer_value, natural_value,
};
use crate::service::{all_hex, clock_granted, effective_set, hex_number, passed_to, unplussed};
use crate::text::{is_space, lines, lowered, run_before, small, trimmed, trimmed_end};

verus! {

/// A number reads back from its digits, with a sign or without; a minus sign turns it
/// round, and is not taken where there is nothing below zero.
pub proof fn signed_numbers_read_back(n: nat)
    ensures
        natural_value(decimal(n)) == Some(n),
        natural_value(seq!['+'] + decimal(n)) == Some(n),
        natural_value(seq!['-'] + decimal(n)) is None,
        integer_value(decimal(n)) == Some(n as int),
        integer_value(seq!['+'] + decimal(n)) == Some(n as int),
        integer_value(seq!['-'] + decimal(n)) == Some(-(n as int)),
{
    decimal_reads_back(n);
    let d = decimal(n);
    assert((seq!['+'] + d).drop_first() =~= d);
    assert((seq!['-'] + d).drop_first() =~= d);
    assert(d.len() > 0);
    assert(crate::numbers::is_digit(d[0]));
    assert((seq!['-'] + d)[0] == '-');
    assert((seq!['+'] + d)[0] == '+');
}

/// With one more digit behind, ten times as much and that digit.
pub proof fn digits_count_tenfold(s: Seq<char>, c: char)
    requires
        '0' <= c <= '9',
        all_digits(s),
    ensures
        natural_value(s.push(c)) == Some(
            10 * (if s.len() == 0 { 0 } else { natural_value(s)->Some_0 }) + (c as nat - 48) as nat,
        ),
{
    assert(s.push(c).drop_last() =~= s);
    assert forall|i: int| 0 <= i < s.push(c).len() implies crate::numbers::is_digit(
        #[trigger] s.push(c)[i],
    ) by {
        if i < s.len() {
            assert(s.push(c)[i] == s[i]);
        }
    }
}

/// Descriptors are adopted by the process that they were passed to, if there are any.
pub proof fn descriptors_go_to_the_process_named(pid: u32, our_pid: u32, n: nat)
    ensures
        passed_to(Some(decimal(pid as nat)), Some(decimal(n)), our_pid) <==> pid == our_pid && 1
            <= n <= 0x7fff_ffff,
        !passed_to(None, Some(decimal(n)), our_pid),
        !passed_to(Some(decimal(pid as nat)), None, our_pid),
        !passed_to(Some(decimal(pid as nat)), Some(seq!['-'] + decimal(n)), our_pid),
{
    signed_numbers_read_back(pid as nat);
    signed_numbers_read_back(n);
}

/// One digit fewer, a sixteenth.
proof fn lemma_hex_shift(s: Seq<char>)
    requires
        s.len() >= 1,
        all_hex(s),
    ensures
        hex_number(s) / 16 == hex_number(s.drop_last()),
        s.len() > 1 ==> all_hex(s.drop_last()),
        hex_number(s) % 16 == hex_value(s.last())->Some_0,
{
    assert(hex_value(s[s.len() - 1]) is Some);
    assert forall|i: int| 0 <= i < s.drop_last().len() implies hex_value(
        #[trigger] s.drop_last()[i],
    ) is Some by {
        assert(s.drop_last()[i] == s[i]);
    }
}

proof fn lemma_bit(n: nat)
    ensures
        (n / 0x200_0000) % 2 == ((n / 16 / 16 / 16 / 16 / 16 / 16) % 16 / 2) % 2,
{
    let x = n as int;
    lemma_div_denominator(x, 16, 16);
    lemma_div_denominator(x, 0x100, 16);
    lemma_div_denominator(x, 0x1000, 16);
    lemma_div_denominator(x, 0x1_0000, 16);
    lemma_div_denominator(x, 0x10_0000, 16);
    lemma_div_denominator(x, 0x100_0000, 2);
    lemma_low_bits(x / 0x100_0000);
}

proof fn lemma_low_bits(q: int)
    requires
        q >= 0,
    ensures
        (q / 2) % 2 == (q % 16 / 2) % 2,
{
    let a = q / 16;
    let r = q % 16;
    assert(q / 2 == 8 * a + r / 2);
}

proof fn lemma_hex_places(s: Seq<char>)
    requires
        s.len() >= 7,
        all_hex(s),
    ensures
        (hex_number(s) / 0x200_0000nat) % 2 == (hex_value(s[s.len() - 7])->Some_0 / 2) % 2,
{
    let s1 = s.drop_last();
    let s2 = s1.drop_last();
    let s3 = s2.drop_last();
    let s4 = s3.drop_last();
    let s5 = s4.drop_last();
    let s6 = s5.drop_last();
    lemma_hex_shift(s);
    lemma_hex_shift(s1);
    lemma_hex_shift(s2);
    lemma_hex_shift(s3);
    lemma_hex_shift(s4);
    lemma_hex_shift(s5);
    lemma_hex_shift(s6);
    assert(s6.last() == s[s.len() - 7]);
    lemma_bit(hex_number(s));
}

/// The clock is granted by the second bit of the seventh hex digit from the right: bit 25.
pub proof fn the_clock_is_the_twenty_fifth_bit(status: Seq<char>, rest: Seq<char>)
    requires
        effective_set(lines(status)) == Some(rest),
        7 <= trimmed(rest).len() <= 16,
        all_hex(trimmed(rest)),
    ensures
        clock_granted(status) <==> (hex_value(
            trimmed(rest)[trimmed(rest).len() - 7],
        )->Some_0 / 2) % 2 == 1,
{
    let digits = trimmed(rest);
    assert(hex_value(digits[0]) is Some);
    assert(unplussed(digits) == digits);
    lemma_hex_places(digits);
    lemma_hex_bound(digits);
}

proof fn lemma_hex_bound(s: Seq<char>)
    requires
        s.len() <= 16,
        s.len() == 0 || all_hex(s),
    ensures
        hex_number(s) <= u64::MAX,
{
    lemma_hex_below(s);
    lemma_sixteens(s.len(), 16);
    assert(sixteens(16) == 0x1_0000_0000_0000_0000) by {
        reveal_with_fuel(sixteens, 17);
    }
}

spec fn sixteens(n: nat) -> nat
    decreases n,
{
    if n == 0 {
        1
    } else {
        16 * sixteens((n - 1) as nat)
    }
}

proof fn lemma_sixteens(a: nat, b: nat)
    requires
        a <= b,
    ensures
        sixteens(a) <= sixteens(b),
    decreases b,
{
    if a < b {
        lemma_sixteens(a, (b - 1) as nat);
    }
}

proof fn lemma_hex_below(s: Seq<char>)
    requires
        s.len() == 0 || all_hex(s),
    ensures
        hex_number(s) < sixteens(s.len()),
    decreases s.len(),
{
    if s.len() > 0 {
        assert(hex_value(s[s.len() - 1]) is Some);
        assert forall|i: int| 0 <= i < s.drop_last().len() implies hex_value(
            #[trigger] s.drop_last()[i],
        ) is Some by {
            assert(s.drop_last()[i] == s[i]);
        }
        lemma_hex_below(s.drop_last());
    }
}

/// Without the line that names it, nothing is granted.
pub proof fn no_effective_set_grants_nothing(status: Seq<char>)
    requires
        effective_set(lines(status)) is None,
    ensures
        !clock_granted(status),
{
}

/// A browser's request goes where its method and its path say: a preflight wherever it
/// goes, an exchange to anything that starts with `/time`, the page at the root, and any
/// other file that is fetched; nothing else is allowed.
pub proof fn requests_are_told_apart(path: Seq<char>, more: Seq<char>, method: Seq<char>)
    ensures
        route_of("OPTIONS"@, path) == Route::Preflight,
        route_of("POST"@, "/time"@ + more) == Route::TimeExchange,
        route_of("GET"@, "/"@) == Route::StatusPage,
        route_of("GET"@, "/index.html"@) == Route::StatusPage,
        path != "/"@ && path != "/index.html"@ ==> route_of("GET"@, path) == Route::Asset,
        route_of("POST"@, path) == Route::TimeExchange <==> path.len() >= 5 && path.take(5)
            == "/time"@,
        route_of("POST"@, path) == Route::TimeExchange || route_of("POST"@, path)
            == Route::MethodNotAllowed,
        method != "GET"@ && method != "POST"@ && method != "OPTIONS"@ ==> route_of(method, path)
            == Route::MethodNotAllowed,
{
    reveal_strlit("OPTIONS");
    reveal_strlit("POST");
    reveal_strlit("GET");
    reveal_strlit("/time");
    assert("OPTIONS"@.len() == 7 && "POST"@.len() == 4 && "GET"@.len() == 3);
    assert(("/time"@ + more).take(5) =~= "/time"@);
}

/// A body is read if it has any bytes, four thousand and 96 at most, after twice as many of
/// headers.
pub proof fn small_bodies_are_read(length: nat)
    ensures
        is_acceptable(length) <==> length != 0 && length <= 4096,
        MAX_HEADER_BYTES == 2 * 4096,
{
}

/// The slashes in front of a path are no part of the name of a file: with one more it asks
/// for the same file.
pub proof fn a_path_names_a_file(name: Seq<char>)
    ensures
        unslashed(seq!['/'] + name) == unslashed(name),
        is_servable(name) ==> unslashed(seq!['/'] + name) == name,
{
    assert((seq!['/'] + name).drop_first() =~= name);
    if is_servable(name) {
        assert(name[0] != '/');
    }
}

/// Nothing beside or above its directory is served: no name with a separator, a drive or
/// two dots side by side; any other name is.
pub proof fn names_that_are_served(name: Seq<char>)
    ensures
        is_servable(name) <==> name.len() > 0 && !name.contains('/') && !name.contains('\\')
            && !name.contains(':') && !(exists|i: int|
            0 <= i < name.len() - 1 && #[trigger] name[i] == '.' && name[i + 1] == '.'),
{
    if is_servable(name) {
        assert(!name.contains('/'));
    }
    if name.len() > 0 && !name.contains('/') && !name.contains('\\') && !name.contains(':') {
        assert forall|i: int| 0 <= i < name.len() implies (#[trigger] name[i]) != '/' && name[i]
            != '\\' && name[i] != ':' by {}
    }
}

proof fn lemma_tail(stem: Seq<char>, tail: Seq<char>)
    ensures
        (stem + tail).skip((stem + tail).len() - tail.len()) == tail,
{
    assert((stem + tail).skip((stem + tail).len() - tail.len()) =~= tail);
}

/// A file is called what the end of its name says.
pub proof fn a_name_tells_the_kind(stem: Seq<char>)
    ensures
        kind_of(stem + ".wasm"@) == "application/wasm"@,
        kind_of(stem + ".js"@) == "text/javascript; charset=utf-8"@,
        kind_of(stem + ".html"@) == "text/html; charset=utf-8"@,
        stem.len() > 0 && stem.last() != 'm' && stem.last() != 's' && stem.last() != 'l' ==> kind_of(
            stem,
        ) == "application/octet-stream"@,
{
    reveal_strlit(".wasm");
    reveal_strlit(".js");
    reveal_strlit(".html");
    lemma_tail(stem, ".wasm"@);
    lemma_tail(stem, ".js"@);
    lemma_tail(stem, ".html"@);
    assert(".wasm"@.last() == 'm' && ".js"@.last() == 's' && ".html"@.last() == 'l');
    lemma_ends(stem, ".wasm"@);
    lemma_ends(stem, ".js"@);
    lemma_ends(stem, ".html"@);
    lemma_ends(stem + ".js"@, ".wasm"@);
    lemma_ends(stem + ".html"@, ".wasm"@);
    lemma_ends(stem + ".html"@, ".js"@);
    assert((stem + ".js"@).last() == 's');
    assert((stem + ".html"@).last() == 'l');
}

proof fn lemma_ends(name: Seq<char>, suffix: Seq<char>)
    requires
        suffix.len() > 0,
    ensures
        crate::gateway::ends_in(name, suffix) ==> name.len() > 0 && name.last() == suffix.last(),
{
    if crate::gateway::ends_in(name, suffix) {
        assert(name.skip(name.len() - suffix.len()).last() == suffix.last());
    }
}

/// Each status says why in its own words, and one that is not known is the gateway's fault.
pub proof fn reasons_are_told(status: u16)
    ensures
        status == 200 ==> reason_of(status) == "OK"@,
        status == 204 ==> reason_of(status) == "No Content"@,
        status == 400 ==> reason_of(status) == "Bad Request"@,
        status == 404 ==> reason_of(status) == "Not Found"@,
        status == 405 ==> reason_of(status) == "Method Not Allowed"@,
        status == 429 ==> reason_of(status) == "Too Many Requests"@,
        status >= 500 ==> reason_of(status) == "Internal Server Error"@,
{
}

proof fn lemma_before(s: Seq<char>, n: int, stop: char)
    requires
        0 <= n < s.len(),
        s[n] == stop,
        forall|i: int| 0 <= i < n ==> (#[trigger] s[i]) != stop,
    ensures
        run_before(s, stop) == n,
    decreases n,
{
    if n > 0 {
        assert(s[0] != stop);
        assert forall|i: int| 0 <= i < n - 1 implies (#[trigger] s.drop_first()[i]) != stop by {
            assert(s.drop_first()[i] == s[i + 1]);
        }
        lemma_before(s.drop_first(), n - 1, stop);
    }
}

proof fn lemma_bare(s: Seq<char>)
    requires
        s.len() > 0,
        forall|i: int| 0 <= i < s.len() ==> !is_space(#[trigger] s[i]),
    ensures
        trimmed(s) == s,
        trimmed_end(s) == s,
        trimmed(seq![' '] + s) == s,
{
    assert(!is_space(s[0]));
    assert(!is_space(s[s.len() - 1]));
    let t = seq![' '] + s;
    assert(is_space(t[0]));
    assert(t.drop_first() =~= s);
}

/// A length header says how long the body is, however its name is written; any other
/// header leaves what is known, and a blank line ends them.
pub proof fn a_length_header_is_heeded(name: Seq<char>, n: nat, known: usize)
    requires
        lowered(name) == "content-length"@,
        n <= usize::MAX,
    ensures
        length_after(name + seq![':', ' '] + decimal(n), known) == Some(n as usize),
        length_after(name + seq![':'] + decimal(n), known) == Some(n as usize),
        length_after(Seq::empty(), known) is None,
{
    reveal_strlit("content-length");
    signed_numbers_read_back(n);
    let d = decimal(n);
    decimal_reads_back(n);
    assert forall|i: int| 0 <= i < d.len() implies !is_space(#[trigger] d[i]) by {
        assert(crate::numbers::is_digit(d[i]));
    }
    lemma_bare(d);
    assert(lowered(name).len() == name.len());
    assert("content-length"@.len() == 14);
    assert forall|i: int| 0 <= i < 14 implies (#[trigger] name[i]) != ':' by {
        assert(small(name[i]) == lowered(name)[i]);
        assert("content-length"@[i] != ':');
    }
    let a = name + seq![':', ' '] + d;
    let b = name + seq![':'] + d;
    assert(a.last() == d.last() && b.last() == d.last());
    assert(!is_space(d[d.len() - 1]));
    assert(trimmed_end(a) == a && trimmed_end(b) == b);
    assert(a[14] == ':' && b[14] == ':');
    assert forall|i: int| 0 <= i < 14 implies (#[trigger] a[i]) != ':' by {
        assert(a[i] == name[i]);
    }
    assert forall|i: int| 0 <= i < 14 implies (#[trigger] b[i]) != ':' by {
        assert(b[i] == name[i]);
    }
    lemma_before(a, 14, ':');
    lemma_before(b, 14, ':');
    assert(a.take(14) =~= name);
    assert(b.take(14) =~= name);
    assert(a.skip(15) =~= seq![' '] + d);
    assert(b.skip(15) =~= d);
}

/// Another header says nothing of the body.
pub proof fn other_headers_are_passed_over(line: Seq<char>, known: usize)
    requires
        trimmed_end(line).len() > 0,
        lowered(trimmed_end(line).take(run_before(trimmed_end(line), ':') as int)).len() != 14,
    ensures
        length_after(line, known) == Some(known),
{
    reveal_strlit("content-length");
    assert("content-length"@.len() == 14);
}

proof fn lemma_colon(host: Seq<char>, tail: Seq<char>)
    requires
        !tail.contains(':'),
    ensures
        after_last_colon(host + seq![':'] + tail) == Some(tail),
    decreases tail.len(),
{
    let s = host + seq![':'] + tail;
    if tail.len() == 0 {
        assert(s.last() == ':');
        assert(tail =~= Seq::empty());
    } else {
        assert(tail.contains(tail.last()));
        assert(s.last() == tail.last());
        assert(s.drop_last() =~= host + seq![':'] + tail.drop_last());
        assert forall|c: char| tail.drop_last().contains(c) implies tail.contains(c) by {
            let i = tail.drop_last().index_of(c);
            assert(tail[i] == c);
        }
        lemma_colon(host, tail.drop_last());
        assert(tail.drop_last().push(tail.last()) =~= tail);
    }
}

proof fn lemma_no_colon(s: Seq<char>)
    requires
        !s.contains(':'),
    ensures
        after_last_colon(s) is None,
    decreases s.len(),
{
    if s.len() > 0 {
        assert(s.contains(s.last()));
        assert forall|c: char| s.drop_last().contains(c) implies s.contains(c) by {
            let i = s.drop_last().index_of(c);
            assert(s[i] == c);
        }
        lemma_no_colon(s.drop_last());
    }
}

proof fn lemma_digits_have_no_colon(n: nat)
    ensures
        !decimal(n).contains(':'),
{
    decimal_reads_back(n);
    let d = decimal(n);
    if d.contains(':') {
        let i = d.index_of(':');
        assert(crate::numbers::is_digit(d[i]));
    }
}

/// A port behind a colon is the port, whatever stands before it, for the control plane and
/// for what is bound to; a name without a colon names none.
pub proof fn a_port_behind_a_colon_is_the_port(host: Seq<char>, port: u16)
    ensures
        explicit_port(host + seq![':'] + decimal(port as nat)) == Some(port),
        bound_port(host + seq![':'] + decimal(port as nat)) == port,
        bound_port(decimal(port as nat)) == port,
        !host.contains(':') ==> explicit_port(host) is None,
        !host.contains(':') && natural_value(host) is None ==> bound_port(host) == 123,
{
    decimal_reads_back(port as nat);
    signed_numbers_read_back(port as nat);
    lemma_digits_have_no_colon(port as nat);
    lemma_colon(host, decimal(port as nat));
    lemma_no_colon(decimal(port as nat));
    if !host.contains(':') {
        lemma_no_colon(host);
    }
}

/// A port that is derived from a name stands among the 300 from 49200 on.
pub proof fn derived_ports_stand_together(name: Seq<char>)
    ensures
        49_200 <= derived_port(name) < 49_500,
        derived_port(name) == 49_200 + fnv(vstd::utf8::encode_utf8(name)) % 300,
{
}

/// The hash of a name starts from the offset basis of FNV-1a, and takes each byte in turn:
/// first the bits that differ, and with them times the prime, in 64 bits.
pub proof fn a_name_is_hashed_byte_by_byte(bytes: Seq<u8>, byte: u8)
    ensures
        fnv(Seq::empty()) == 14_695_981_039_346_656_037u64,
        fnv(bytes.push(byte)) as int == ((fnv(bytes) ^ (byte as u64)) as int * 1_099_511_628_211)
            % 0x1_0000_0000_0000_0000int,
{
    assert(bytes.push(byte).drop_last() =~= bytes);
}

} // verus!
