//! The browser gateway: NTP over HTTP. A page has no UDP socket, so the gateway
//! accepts a real NTP packet in the body of a request and answers with one. What
//! is here reads the head of a request, decides what is asked for, and writes
//! the head of the answer; every limit exists because the listener is reachable
//! by anyone.

use vstd::prelude::*;
use vstd::slice::slice_subrange;
use vstd::string::StringExecFns;

use crate::numbers::{decimal, decimal_text, natural_value, parse_natural};
use crate::text::{
    chars_of, find, lowered, run_before, spells, split_words, string_of, to_lower, trim, trim_end,
    trimmed, trimmed_end, views, words,
};

verus! {

/// Ceiling on the request line plus headers.
pub const MAX_HEADER_BYTES: u64 = 8192;

/// Ceiling on the body: a packet with extension fields is well under this.
pub const MAX_BODY_BYTES: usize = 4096;

/// The first line of a request: its method and its path.
pub struct RequestLine {
    pub method: String,
    pub path: String,
}

/// Read the first line of a request. A line without a method has the empty one,
/// a line without a path asks for the root.
pub fn request_line(line: &str) -> (request: RequestLine)
    ensures
        request.method@ == if words(line@).len() > 0 {
            words(line@)[0]
        } else {
            ""@
        },
        request.path@ == if words(line@).len() > 1 {
            words(line@)[1]
        } else {
            "/"@
        },
{
    let chars: Vec<char> = chars_of(line);
    let found: Vec<Vec<char>> = split_words(chars.as_slice());
    assert(views(found@).len() == found@.len());
    RequestLine {
        method: if found.len() > 0 {
            assert(views(found@)[0] == found@[0]@);
            string_of(found[0].as_slice())
        } else {
            "".to_owned()
        },
        path: if found.len() > 1 {
            assert(views(found@)[1] == found@[1]@);
            string_of(found[1].as_slice())
        } else {
            "/".to_owned()
        },
    }
}

/// The body length that is known after one header line: the line's own, if it
/// is a length header, zero where that is no number, and else the one known
/// before. A blank line ends the headers.
pub open spec fn length_after(line: Seq<char>, known: usize) -> Option<usize> {
    let line = trimmed_end(line);
    let at = run_before(line, ':') as int;
    if line.len() == 0 {
        None
    } else if at >= line.len() || lowered(line.take(at)) != "content-length"@ {
        Some(known)
    } else {
        match natural_value(trimmed(line.skip(at + 1))) {
            Some(n) if n <= usize::MAX => Some(n as usize),
            _ => Some(0),
        }
    }
}

/// Read one header line; `known` is the body length known before it. `None` at
/// the end of the headers.
pub fn header_line(line: &str, known: usize) -> (length: Option<usize>)
    ensures
        length == length_after(line@, known),
{
    let chars: Vec<char> = chars_of(line);
    let line: &[char] = trim_end(chars.as_slice());
    if line.len() == 0 {
        return None;
    }
    let at: usize = find(line, ':');
    if at >= line.len() {
        return Some(known);
    }
    let name: &[char] = slice_subrange(line, 0, at);
    assert(name@ =~= line@.take(at as int));
    let name: Vec<char> = to_lower(name);
    if !spells(name.as_slice(), "content-length") {
        return Some(known);
    }
    let value: &[char] = slice_subrange(line, at + 1, line.len());
    assert(value@ =~= line@.skip(at + 1));
    match parse_natural(trim(value), usize::MAX as u64) {
        Some(n) => Some(n as usize),
        None => Some(0),
    }
}

/// What a request asks for.
#[derive(Clone, Copy, Debug, PartialEq, Eq, Structural)]
pub enum Route {
    /// A browser preflights a cross-origin request before sending it.
    Preflight,
    /// A time exchange: a packet in, a packet out.
    TimeExchange,
    StatusPage,
    Asset,
    MethodNotAllowed,
}

/// What a request asks for, by method and path.
pub open spec fn route_of(method: Seq<char>, path: Seq<char>) -> Route {
    if method == "OPTIONS"@ {
        Route::Preflight
    } else if method == "POST"@ && path.len() >= 5 && path.take(5) == "/time"@ {
        Route::TimeExchange
    } else if method == "GET"@ && (path == "/"@ || path == "/index.html"@) {
        Route::StatusPage
    } else if method == "GET"@ {
        Route::Asset
    } else {
        Route::MethodNotAllowed
    }
}

/// Decide what a request asks for.
pub fn route(request: &RequestLine) -> (route: Route)
    ensures
        route == route_of(request.method@, request.path@),
{
    let method: Vec<char> = chars_of(request.method.as_str());
    let path: Vec<char> = chars_of(request.path.as_str());
    if spells(method.as_slice(), "OPTIONS") {
        return Route::Preflight;
    }
    if spells(method.as_slice(), "POST") && path.len() >= 5 {
        let start: &[char] = slice_subrange(path.as_slice(), 0, 5);
        assert(start@ =~= path@.take(5));
        if spells(start, "/time") {
            return Route::TimeExchange;
        }
    }
    if spells(method.as_slice(), "GET") {
        if spells(path.as_slice(), "/") || spells(path.as_slice(), "/index.html") {
            return Route::StatusPage;
        }
        return Route::Asset;
    }
    Route::MethodNotAllowed
}

/// Whether a body of this length is read at all.
pub open spec fn is_acceptable(length: nat) -> bool {
    1 <= length <= MAX_BODY_BYTES
}

/// Whether a body of this length is read at all.
pub fn body_is_acceptable(length: usize) -> (yes: bool)
    ensures
        yes == (1 <= length <= MAX_BODY_BYTES),
        yes == is_acceptable(length as nat),
{
    1 <= length && length <= MAX_BODY_BYTES
}

/// A path without the slashes in front.
pub open spec fn unslashed(path: Seq<char>) -> Seq<char>
    decreases path.len(),
{
    if path.len() > 0 && path[0] == '/' {
        unslashed(path.drop_first())
    } else {
        path
    }
}

/// Whether a name has no separator and no drive: it names a file of one
/// directory, nothing beside or above it.
pub open spec fn is_flat(name: Seq<char>) -> bool {
    forall|i: int|
        0 <= i < name.len() ==> (#[trigger] name[i]) != '/' && name[i] != '\\' && name[i] != ':'
}

/// Whether two dots stand side by side in a name.
pub open spec fn has_parent_reference(name: Seq<char>) -> bool {
    exists|i: int|
        0 <= i < name.len() - 1 && #[trigger] name[i] == '.' && name[i + 1] == '.'
}

/// Whether an asset of this name may be served: a flat file name, so that no
/// request reaches a file outside the asset directory.
pub open spec fn is_servable(name: Seq<char>) -> bool {
    name.len() > 0 && is_flat(name) && !has_parent_reference(name)
}

/// The file name that a path asks for, if it may be served.
pub fn asset_name(path: &str) -> (name: Option<String>)
    ensures
        match name {
            Some(n) => n@ == unslashed(path@) && is_servable(n@),
            None => !is_servable(unslashed(path@)),
        },
{
    let chars: Vec<char> = chars_of(path);
    let mut start: usize = 0;
    assert(chars@.skip(0) =~= chars@);
    while start < chars.len() && chars[start] == '/'
        invariant
            start <= chars@.len(),
            unslashed(chars@) == unslashed(chars@.skip(start as int)),
        decreases chars@.len() - start,
    {
        assert(chars@.skip(start as int).drop_first() =~= chars@.skip(start + 1));
        start = start + 1;
    }
    let name: &[char] = slice_subrange(chars.as_slice(), start, chars.len());
    assert(name@ =~= chars@.skip(start as int));
    if name.len() == 0 {
        return None;
    }
    let mut i: usize = 0;
    while i < name.len()
        invariant
            i <= name@.len(),
            name@ == unslashed(path@),
            forall|j: int|
                0 <= j < i ==> (#[trigger] name@[j]) != '/' && name@[j] != '\\' && name@[j] != ':',
            forall|j: int|
                0 <= j < i - 1 ==> !((#[trigger] name@[j]) == '.' && name@[j + 1] == '.'),
        decreases name@.len() - i,
    {
        let c: char = name[i];
        if c == '/' || c == '\\' || c == ':' {
            assert(!is_flat(name@));
            return None;
        }
        if i > 0 && c == '.' && name[i - 1] == '.' {
            assert(name@[i - 1] == '.' && name@[i - 1 + 1] == '.');
            assert(has_parent_reference(name@));
            return None;
        }
        i = i + 1;
    }
    Some(string_of(name))
}

/// Whether a name ends in `suffix`.
pub open spec fn ends_in(name: Seq<char>, suffix: Seq<char>) -> bool {
    name.len() >= suffix.len() && name.skip(name.len() - suffix.len()) == suffix
}

fn ends_with(name: &[char], suffix: &str) -> (yes: bool)
    ensures
        yes == ends_in(name@, suffix@),
{
    let wanted: Vec<char> = chars_of(suffix);
    if name.len() < wanted.len() {
        return false;
    }
    let tail: &[char] = slice_subrange(name, name.len() - wanted.len(), name.len());
    assert(tail@ =~= name@.skip(name@.len() - suffix@.len()));
    spells(tail, suffix)
}

/// What an asset holds, by the end of its name.
pub open spec fn kind_of(name: Seq<char>) -> Seq<char> {
    if ends_in(name, ".wasm"@) {
        "application/wasm"@
    } else if ends_in(name, ".js"@) {
        "text/javascript; charset=utf-8"@
    } else if ends_in(name, ".html"@) {
        "text/html; charset=utf-8"@
    } else {
        "application/octet-stream"@
    }
}

/// The content type of an asset, by the end of its name.
pub fn content_type(name: &str) -> (kind: &'static str)
    ensures
        kind@ == if ends_in(name@, ".wasm"@) {
            "application/wasm"@
        } else if ends_in(name@, ".js"@) {
            "text/javascript; charset=utf-8"@
        } else if ends_in(name@, ".html"@) {
            "text/html; charset=utf-8"@
        } else {
            "application/octet-stream"@
        },
        kind@ == kind_of(name@),
{
    let chars: Vec<char> = chars_of(name);
    if ends_with(chars.as_slice(), ".wasm") {
        "application/wasm"
    } else if ends_with(chars.as_slice(), ".js") {
        "text/javascript; charset=utf-8"
    } else if ends_with(chars.as_slice(), ".html") {
        "text/html; charset=utf-8"
    } else {
        "application/octet-stream"
    }
}

/// The reason phrase of a status.
pub open spec fn reason_of(status: u16) -> Seq<char> {
    if status == 200 {
        "OK"@
    } else if status == 204 {
        "No Content"@
    } else if status == 400 {
        "Bad Request"@
    } else if status == 404 {
        "Not Found"@
    } else if status == 405 {
        "Method Not Allowed"@
    } else if status == 429 {
        "Too Many Requests"@
    } else {
        "Internal Server Error"@
    }
}

/// The reason phrase of a status.
pub fn reason(status: u16) -> (phrase: &'static str)
    ensures
        phrase@ == reason_of(status),
{
    match status {
        200 => "OK",
        204 => "No Content",
        400 => "Bad Request",
        404 => "Not Found",
        405 => "Method Not Allowed",
        429 => "Too Many Requests",
        _ => "Internal Server Error",
    }
}

/// The head of an answer, up to and with the blank line before its body.
pub fn response_head(status: u16, content_type: &str, body_length: usize) -> (head: String)
    ensures
        head@ == "HTTP/1.1 "@ + decimal(status as nat) + " "@ + reason_of(status)
            + "\r\nContent-Type: "@ + content_type@ + "\r\nContent-Length: "@ + decimal(
            body_length as nat,
        )
            + "\r\nAccess-Control-Allow-Origin: *\r\nAccess-Control-Allow-Methods: POST, GET, OPTIONS\r\nAccess-Control-Allow-Headers: content-type\r\nCache-Control: no-store\r\nConnection: close\r\n\r\n"@,
{
    let mut head: String = "HTTP/1.1 ".to_owned();
    head.append(decimal_text(status as u64).as_str());
    head.append(" ");
    head.append(reason(status));
    head.append("\r\nContent-Type: ");
    head.append(content_type);
    head.append("\r\nContent-Length: ");
    head.append(decimal_text(body_length as u64).as_str());
    head.append(
        "\r\nAccess-Control-Allow-Origin: *\r\nAccess-Control-Allow-Methods: POST, GET, OPTIONS\r\nAccess-Control-Allow-Headers: content-type\r\nCache-Control: no-store\r\nConnection: close\r\n\r\n",
    );
    head
}

} // verus!
