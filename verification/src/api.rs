//! Where the control plane listens, and the reports that travel over it.

use vstd::prelude::*;
use vstd::string::StringExecFns;
use vstd::utf8::encode_utf8;

use crate::numbers::{natural_value, parse_natural};
use crate::text::chars_of;
use vstd::slice::slice_subrange;

verus! {

/// Where the control plane actually listens, resolved from what the operator
/// typed.
#[derive(Debug, PartialEq, Eq, Hash)]
pub enum ControlEndpoint {
    /// A Unix domain socket at this path.
    UnixPath(String),
    /// A TCP endpoint on loopback.
    Loopback(u16),
}

/// The lowest loopback port derived from a name.
pub const DERIVED_PORT_BASE: u16 = 49_200;

/// How many loopback ports names are derived into.
pub const DERIVED_PORT_SPAN: u16 = 300;

/// What stands after the last colon, if there is one.
pub open spec fn after_last_colon(s: Seq<char>) -> Option<Seq<char>>
    decreases s.len(),
{
    if s.len() == 0 {
        None
    } else if s.last() == ':' {
        Some(Seq::empty())
    } else {
        match after_last_colon(s.drop_last()) {
            None => None,
            Some(tail) => Some(tail.push(s.last())),
        }
    }
}

/// A port number, as text.
pub open spec fn port_of(text: Seq<char>) -> Option<u16> {
    match natural_value(text) {
        Some(p) if p <= u16::MAX => Some(p as u16),
        _ => None,
    }
}

/// The port that a name ends in, after a colon.
pub open spec fn explicit_port(spec: Seq<char>) -> Option<u16> {
    match after_last_colon(spec) {
        None => None,
        Some(tail) => port_of(tail),
    }
}

/// The FNV-1a hash of a byte string.
pub open spec fn fnv(bytes: Seq<u8>) -> u64
    decreases bytes.len(),
{
    if bytes.len() == 0 {
        0xcbf2_9ce4_8422_2325
    } else {
        (((fnv(bytes.drop_last()) ^ (bytes.last() as u64)) * 0x0000_0100_0000_01b3) as int
            % 0x1_0000_0000_0000_0000) as u64
    }
}

/// The port derived from a name.
pub open spec fn derived_port(spec: Seq<char>) -> u16 {
    (DERIVED_PORT_BASE + fnv(encode_utf8(spec)) % (DERIVED_PORT_SPAN as u64)) as u16
}

/// Where what stands after the last colon begins.
fn past_last_colon(s: &[char]) -> (at: Option<usize>)
    ensures
        match at {
            Some(i) => i <= s@.len() && after_last_colon(s@) == Some(
                s@.subrange(i as int, s@.len() as int),
            ),
            None => after_last_colon(s@) is None,
        },
{
    let mut i: usize = s.len();
    proof {
        assert(s@.take(s@.len() as int) =~= s@);
        assert(s@.subrange(i as int, s@.len() as int) =~= Seq::empty());
        if let Some(tail) = after_last_colon(s@) {
            assert(tail + Seq::<char>::empty() =~= tail);
        }
    }
    while i > 0
        invariant
            i <= s@.len(),
            after_last_colon(s@) == match after_last_colon(s@.take(i as int)) {
                None => None,
                Some(tail) => Some(tail + s@.subrange(i as int, s@.len() as int)),
            },
        decreases i,
    {
        let ghost here = s@.take(i as int);
        assert(here.last() == s@[i - 1]);
        if s[i - 1] == ':' {
            assert(Seq::<char>::empty() + s@.subrange(i as int, s@.len() as int) =~= s@.subrange(
                i as int,
                s@.len() as int,
            ));
            return Some(i);
        }
        proof {
            assert(here.drop_last() =~= s@.take(i - 1));
            if let Some(tail) = after_last_colon(s@.take(i - 1)) {
                assert(tail.push(s@[i - 1]) + s@.subrange(i as int, s@.len() as int) =~= tail
                    + s@.subrange(i - 1, s@.len() as int));
            }
        }
        i = i - 1;
    }
    assert(s@.take(0).len() == 0);
    None
}

/// Resolve a control name where there are Unix sockets: an explicit port is
/// honoured, and anything else is a path.
pub fn control_endpoint(spec: &str) -> (endpoint: ControlEndpoint)
    ensures
        match explicit_port(spec@) {
            Some(p) => endpoint is Loopback && endpoint->Loopback_0 == p,
            None => endpoint is UnixPath && endpoint->UnixPath_0@ == spec@,
        },
{
    match port_in(spec) {
        Some(p) => ControlEndpoint::Loopback(p),
        None => ControlEndpoint::UnixPath(spec.to_owned()),
    }
}

/// Resolve a control name where there are none: a path becomes a port derived
/// from its text, so that both ends agree on it independently.
pub fn loopback_endpoint(spec: &str) -> (endpoint: ControlEndpoint)
    ensures
        endpoint is Loopback,
        endpoint->Loopback_0 == match explicit_port(spec@) {
            Some(p) => p,
            None => derived_port(spec@),
        },
{
    match port_in(spec) {
        Some(p) => ControlEndpoint::Loopback(p),
        None => ControlEndpoint::Loopback(derive_port(spec)),
    }
}

fn port_in(spec: &str) -> (port: Option<u16>)
    ensures
        port == explicit_port(spec@),
{
    let chars: Vec<char> = chars_of(spec);
    match past_last_colon(chars.as_slice()) {
        None => None,
        Some(i) => {
            let tail: &[char] = slice_subrange(chars.as_slice(), i, chars.len());
            match parse_natural(tail, u16::MAX as u64) {
                Some(p) => Some(p as u16),
                None => None,
            }
        },
    }
}

/// The port that a bind address names, or 123.
pub open spec fn bound_port(address: Seq<char>) -> u16 {
    match port_of(
        match after_last_colon(address) {
            Some(tail) => tail,
            None => address,
        },
    ) {
        Some(p) => p,
        None => 123,
    }
}

/// The port of a bind address: what stands after its last colon, or all of it
/// where there is none; 123 where that is not a port.
pub fn bind_port(address: &str) -> (port: u16)
    ensures
        port == match port_of(
            match after_last_colon(address@) {
                Some(tail) => tail,
                None => address@,
            },
        ) {
            Some(p) => p,
            None => 123,
        },
        port == bound_port(address@),
{
    let chars: Vec<char> = chars_of(address);
    let start: usize = match past_last_colon(chars.as_slice()) {
        None => 0,
        Some(i) => i,
    };
    let tail: &[char] = slice_subrange(chars.as_slice(), start, chars.len());
    assert(after_last_colon(address@) is None ==> tail@ =~= address@);
    match parse_natural(tail, u16::MAX as u64) {
        Some(p) => p as u16,
        None => 123,
    }
}

/// A stable port for a given control name: identical in every process and across
/// runs.
pub fn derive_port(spec: &str) -> (port: u16)
    ensures
        port == derived_port(spec@),
        DERIVED_PORT_BASE <= port < DERIVED_PORT_BASE + DERIVED_PORT_SPAN,
{
    let bytes: &[u8] = spec.as_bytes();
    let mut hash: u64 = 0xcbf2_9ce4_8422_2325;
    let mut i: usize = 0;
    assert(bytes@.take(0) =~= Seq::empty());
    while i < bytes.len()
        invariant
            i <= bytes@.len(),
            hash == fnv(bytes@.take(i as int)),
        decreases bytes@.len() - i,
    {
        hash = (hash ^ (bytes[i] as u64)).wrapping_mul(0x0000_0100_0000_01b3);
        proof {
            assert(bytes@.take(i + 1).drop_last() =~= bytes@.take(i as int));
            assert(bytes@.take(i + 1).last() == bytes@[i as int]);
        }
        i = i + 1;
    }
    assert(bytes@.take(i as int) =~= bytes@);
    DERIVED_PORT_BASE + (hash % (DERIVED_PORT_SPAN as u64)) as u16
}

/// The default control name, given the user's runtime directory.
pub fn default_control_spec(runtime_dir: Option<&str>) -> (spec: String)
    ensures
        spec@ == match runtime_dir {
            Some(dir) => if dir@.len() > 0 {
                dir@ + "/rusty_time.sock"@
            } else {
                "/tmp/rusty_time.sock"@
            },
            None => "/tmp/rusty_time.sock"@,
        },
{
    match runtime_dir {
        Some(dir) => {
            if dir.is_empty() {
                "/tmp/rusty_time.sock".to_owned()
            } else {
                let mut spec: String = dir.to_owned();
                spec.append("/rusty_time.sock");
                spec
            }
        },
        None => "/tmp/rusty_time.sock".to_owned(),
    }
}

/// What NTS did during a query.
#[derive(Debug, PartialEq, Eq)]
pub struct NtsReport {
    /// The host key establishment ran against.
    pub ke_host: String,
    /// The NTP server that key establishment pointed us at.
    pub ntp_server: String,
    pub ntp_port: u16,
    /// Responses that passed verification.
    pub authenticated: u32,
    /// Responses dropped because they did not (forged, stale cookie, NAK).
    pub rejected: u32,
    /// Unspent cookies remaining when the query finished.
    pub cookies_after: usize,
}

/// Server counters.
#[derive(Clone, Copy, Debug, PartialEq, Eq, Structural)]
pub struct ServerStatsReport {
    pub ntp_requests: u64,
    pub ntp_responses: u64,
    pub dropped_rate_limit: u64,
    pub kiss_of_death: u64,
    pub interleaved_responses: u64,
    pub refused: u64,
    pub clients_tracked: usize,
    pub clients_evicted: u64,
    pub uptime_s: u64,
    pub stratum: u8,
}

/// A request on the control socket: one variant per operation.
#[derive(Clone, Copy, Debug, PartialEq, Eq, Structural)]
pub enum ControlRequest {
    ServerStats,
    Clients { limit: usize },
    /// Key ids only, never key material.
    NtsData,
    /// The client discipline loop's current estimate.
    Tracking,
    /// Liveness.
    Ping,
}

} // verus!
