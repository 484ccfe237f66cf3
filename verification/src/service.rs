//! Service-manager integration: what a supervisor is told, what it installs, and
//! whether the sockets and the privileges it hands out are really ours.

use vstd::prelude::*;
use vstd::slice::slice_subrange;
use vstd::string::StringExecFns;

use crate::hex::{hex_value, value_of_digit};
use crate::numbers::{
    decimal, decimal_text, integer_value, natural_value, parse_integer, parse_natural,
};
use crate::text::{chars_of, lines, spells, split_lines, string_of, trim, trimmed, views};

verus! {

/// The systems that the daemon is installed on.
#[derive(Clone, Copy, Debug, PartialEq, Eq, Structural)]
pub enum Platform {
    Linux,
    MacOs,
    Windows,
}

/// The systemd unit, up to the path of the executable. Readiness is announced,
/// so starting the unit waits until the daemon serves.
pub const UNIT_BEFORE: &'static str = "[Unit]\nDescription=rusty_time NTP/NTS daemon\nDocumentation=https://github.com/remade-with-rust/rusty_time\nAfter=network-online.target\nWants=network-online.target\n\n[Service]\nType=notify\nExecStart=";

/// The systemd unit, after the path of the executable. The clock is the only
/// privilege needed; everything else is dropped.
pub const UNIT_AFTER: &'static str = " serve --nts\nRestart=on-failure\nRestartSec=2\n# The clock is the only privilege needed; drop everything else.\nAmbientCapabilities=CAP_SYS_TIME\nCapabilityBoundingSet=CAP_SYS_TIME\nNoNewPrivileges=yes\nProtectSystem=strict\nProtectHome=yes\nPrivateTmp=yes\nPrivateDevices=yes\nProtectKernelTunables=yes\nProtectControlGroups=yes\nRestrictAddressFamilies=AF_INET AF_INET6 AF_UNIX\nRestrictNamespaces=yes\nLockPersonality=yes\nMemoryDenyWriteExecute=yes\nSystemCallArchitectures=native\nStateDirectory=rusty_time\nRuntimeDirectory=rusty_time\n\n[Install]\nWantedBy=multi-user.target\n";

/// The launchd property list, up to the path of the executable.
pub const PLIST_BEFORE: &'static str = "<?xml version=\"1.0\" encoding=\"UTF-8\"?>\n<!DOCTYPE plist PUBLIC \"-//Apple//DTD PLIST 1.0//EN\" \"http://www.apple.com/DTDs/PropertyList-1.0.dtd\">\n<plist version=\"1.0\">\n<dict>\n  <key>Label</key>\n  <string>network.mata.rusty_time</string>\n  <key>ProgramArguments</key>\n  <array>\n    <string>";

/// The launchd property list, after the path of the executable.
pub const PLIST_AFTER: &'static str = "</string>\n    <string>serve</string>\n    <string>--nts</string>\n  </array>\n  <key>RunAtLoad</key>\n  <true/>\n  <key>KeepAlive</key>\n  <true/>\n  <key>StandardErrorPath</key>\n  <string>/var/log/rusty_time.log</string>\n</dict>\n</plist>\n";

/// The Windows installer script, up to the path of the executable.
pub const SCRIPT_BEFORE: &'static str = "REM Install rusty_time as a Windows service (run elevated).\r\nREM The service account needs SeSystemtimePrivilege, which\r\nREM LocalSystem holds by default.\r\nsc.exe create rusty_time binPath= \"";

/// The Windows installer script, after the path of the executable.
pub const SCRIPT_AFTER: &'static str = " serve --nts\" start= auto DisplayName= \"rusty_time NTP/NTS\"\r\nsc.exe description rusty_time \"Pure-Rust NTP/NTS time service\"\r\nsc.exe start rusty_time\r\n";

/// The unit, property list or installer script of a platform, ready to install.
pub fn service_definition(platform: Platform, exec_path: &str) -> (text: String)
    ensures
        text@ == match platform {
            Platform::Linux => UNIT_BEFORE@ + exec_path@ + UNIT_AFTER@,
            Platform::MacOs => PLIST_BEFORE@ + exec_path@ + PLIST_AFTER@,
            Platform::Windows => SCRIPT_BEFORE@ + exec_path@ + SCRIPT_AFTER@,
        },
{
    let (before, after): (&str, &str) = match platform {
        Platform::Linux => (UNIT_BEFORE, UNIT_AFTER),
        Platform::MacOs => (PLIST_BEFORE, PLIST_AFTER),
        Platform::Windows => (SCRIPT_BEFORE, SCRIPT_AFTER),
    };
    let mut text: String = before.to_owned();
    text.append(exec_path);
    text.append(after);
    text
}

/// Where the definition conventionally goes; `None` stands for a platform with
/// no supervisor of its own.
pub fn service_definition_path(platform: Option<Platform>) -> (path: &'static str)
    ensures
        path@ == match platform {
            Some(Platform::Linux) => "/etc/systemd/system/rusty_time.service"@,
            Some(Platform::MacOs) => "/Library/LaunchDaemons/network.mata.rusty_time.plist"@,
            Some(Platform::Windows) => "install-service.cmd"@,
            None => "rusty_time.service"@,
        },
{
    match platform {
        Some(Platform::Linux) => "/etc/systemd/system/rusty_time.service",
        Some(Platform::MacOs) => "/Library/LaunchDaemons/network.mata.rusty_time.plist",
        Some(Platform::Windows) => "install-service.cmd",
        None => "rusty_time.service",
    }
}

/// What tells the supervisor that this process is up and serving.
pub fn ready_message(status: &str) -> (message: String)
    ensures
        message@ == "READY=1\nSTATUS="@ + status@ + "\n"@,
{
    let mut message: String = "READY=1\nSTATUS=".to_owned();
    message.append(status);
    message.append("\n");
    message
}

/// What updates the one-line status that the supervisor shows.
pub fn status_message(status: &str) -> (message: String)
    ensures
        message@ == "STATUS="@ + status@ + "\n"@,
{
    let mut message: String = "STATUS=".to_owned();
    message.append(status);
    message.append("\n");
    message
}

/// The one-line status of a server at work.
pub fn serving_status(requests: u64, responses: u64, dropped: u64, clients: usize) -> (status:
    String)
    ensures
        status@ == decimal(requests as nat) + " requests, "@ + decimal(responses as nat)
            + " answered, "@ + decimal(dropped as nat) + " rate-limited, "@ + decimal(
            clients as nat,
        ) + " clients"@,
{
    let mut status: String = decimal_text(requests);
    status.append(" requests, ");
    status.append(decimal_text(responses).as_str());
    status.append(" answered, ");
    status.append(decimal_text(dropped).as_str());
    status.append(" rate-limited, ");
    status.append(decimal_text(clients as u64).as_str());
    status.append(" clients");
    status
}

/// Where a supervisor listens for announcements.
pub enum NotifySocket {
    /// A path in the file system.
    Path(String),
    /// A name in the abstract namespace.
    Abstract(String),
}

/// The socket that a supervisor named: a path, or an abstract name introduced by
/// `@`.
pub fn notify_socket(name: &str) -> (socket: NotifySocket)
    ensures
        match socket {
            NotifySocket::Abstract(rest) => name@.len() > 0 && name@[0] == '@' && rest@
                == name@.drop_first(),
            NotifySocket::Path(path) => path@ == name@ && !(name@.len() > 0 && name@[0] == '@'),
        },
{
    let chars: Vec<char> = chars_of(name);
    if chars.len() > 0 && chars[0] == '@' {
        let rest: &[char] = slice_subrange(chars.as_slice(), 1, chars.len());
        assert(rest@ =~= name@.drop_first());
        NotifySocket::Abstract(string_of(rest))
    } else {
        NotifySocket::Path(name.to_owned())
    }
}

/// Whether descriptors were passed to the process `our_pid`, going by what the
/// supervisor says: for which process, and how many.
pub open spec fn passed_to(
    listen_pid: Option<Seq<char>>,
    listen_fds: Option<Seq<char>>,
    our_pid: u32,
) -> bool {
    &&& listen_pid is Some && natural_value(listen_pid->Some_0) == Some(our_pid as nat)
    &&& listen_fds is Some && match integer_value(listen_fds->Some_0) {
        Some(n) => 1 <= n <= i32::MAX,
        None => false,
    }
}

/// A text that may be absent, as characters.
pub open spec fn seen(text: Option<&str>) -> Option<Seq<char>> {
    match text {
        Some(t) => Some(t@),
        None => None,
    }
}

/// Should the descriptors that were passed in be adopted? Only if the supervisor
/// passed at least one, and passed it to this very process: a descriptor
/// inherited from a parent sits at the same number, and adopting it would hijack
/// whatever the parent had open there.
pub fn should_adopt_activated(
    listen_pid: Option<&str>,
    listen_fds: Option<&str>,
    our_pid: u32,
) -> (adopt: bool)
    ensures
        adopt == (listen_pid is Some && natural_value(listen_pid->Some_0@) == Some(our_pid as nat)
            && listen_fds is Some && match integer_value(listen_fds->Some_0@) {
            Some(n) => 1 <= n <= i32::MAX,
            None => false,
        }),
        adopt == passed_to(seen(listen_pid), seen(listen_fds), our_pid),
{
    let for_us: bool = match listen_pid {
        None => false,
        Some(text) => {
            let chars: Vec<char> = chars_of(text);
            match parse_natural(chars.as_slice(), u32::MAX as u64) {
                Some(pid) => pid == our_pid as u64,
                None => false,
            }
        },
    };
    let any: bool = match listen_fds {
        None => false,
        Some(text) => {
            let chars: Vec<char> = chars_of(text);
            match parse_integer(chars.as_slice(), i32::MIN as i64, i32::MAX as i64) {
                Some(n) => n >= 1,
                None => false,
            }
        },
    };
    for_us && any
}

/// Whether a text is hex digits and nothing else, at least one.
pub open spec fn all_hex(s: Seq<char>) -> bool {
    s.len() > 0 && forall|i: int| 0 <= i < s.len() ==> hex_value(#[trigger] s[i]) is Some
}

/// The number that a string of hex digits stands for.
pub open spec fn hex_number(s: Seq<char>) -> nat
    decreases s.len(),
{
    if s.len() == 0 {
        0
    } else {
        hex_number(s.drop_last()) * 16 + hex_value(s.last())->Some_0 as nat
    }
}

/// A text without the plus sign in front, if it has one.
pub open spec fn unplussed(s: Seq<char>) -> Seq<char> {
    if s.len() > 0 && s[0] == '+' {
        s.drop_first()
    } else {
        s
    }
}

proof fn lemma_hex_grows(s: Seq<char>, n: int)
    requires
        0 <= n <= s.len(),
        all_hex(s),
    ensures
        hex_number(s.take(n)) <= hex_number(s),
    decreases s.len() - n,
{
    if n < s.len() {
        lemma_hex_grows(s, n + 1);
        assert(s.take(n + 1).drop_last() =~= s.take(n));
        assert(hex_value(s[n]) is Some);
    } else {
        assert(s.take(n) =~= s);
    }
}

/// Hex digits as a number of 64 bits.
fn read_hex(s: &[char]) -> (value: Option<u64>)
    ensures
        value == if all_hex(s@) && hex_number(s@) <= u64::MAX {
            Some(hex_number(s@) as u64)
        } else {
            None
        },
{
    if s.len() == 0 {
        return None;
    }
    let mut value: u128 = 0;
    let mut i: usize = 0;
    assert(s@.take(0).len() == 0);
    while i < s.len()
        invariant
            i <= s@.len(),
            value == hex_number(s@.take(i as int)),
            value <= u64::MAX,
            forall|j: int| 0 <= j < i ==> hex_value(#[trigger] s@[j]) is Some,
        decreases s@.len() - i,
    {
        let digit: u8 = match value_of_digit(s[i]) {
            Some(d) => d,
            None => {
                assert(hex_value(s@[i as int]) is None);
                return None;
            },
        };
        value = value * 16 + digit as u128;
        i = i + 1;
        proof {
            assert(s@.take(i as int).drop_last() =~= s@.take(i - 1));
            assert(s@.take(i as int).last() == s@[i - 1]);
        }
        if value > u64::MAX as u128 {
            proof {
                if all_hex(s@) {
                    lemma_hex_grows(s@, i as int);
                }
            }
            return None;
        }
    }
    assert(s@.take(i as int) =~= s@);
    Some(value as u64)
}

/// What follows `CapEff:` on the first line that starts so.
pub open spec fn effective_set(all: Seq<Seq<char>>) -> Option<Seq<char>>
    decreases all.len(),
{
    if all.len() == 0 {
        None
    } else if all[0].len() >= 7 && all[0].take(7) == "CapEff:"@ {
        Some(all[0].skip(7))
    } else {
        effective_set(all.drop_first())
    }
}

/// Whether a status grants the clock: bit 25 of the effective capability set.
pub open spec fn clock_granted(status: Seq<char>) -> bool {
    match effective_set(lines(status)) {
        None => false,
        Some(rest) => {
            let digits = unplussed(trimmed(rest));
            all_hex(digits) && hex_number(digits) <= u64::MAX && (hex_number(digits) / 0x200_0000)
                % 2 == 1
        },
    }
}

/// Whether the status that the kernel shows of a process grants it the clock:
/// bit 25 of the effective capability set.
pub fn grants_the_clock(status: &str) -> (yes: bool)
    ensures
        yes == match effective_set(lines(status@)) {
            None => false,
            Some(rest) => {
                let digits = unplussed(trimmed(rest));
                all_hex(digits) && hex_number(digits) <= u64::MAX && (hex_number(digits)
                    / 0x200_0000) % 2 == 1
            },
        },
        yes == clock_granted(status@),
{
    let chars: Vec<char> = chars_of(status);
    let all: Vec<Vec<char>> = split_lines(chars.as_slice());
    let ghost seen = views(all@);
    let mut i: usize = 0;
    assert(seen.skip(0) =~= seen);
    while i < all.len()
        invariant
            i <= all@.len(),
            seen == views(all@),
            seen == lines(status@),
            effective_set(seen) == effective_set(seen.skip(i as int)),
        decreases all@.len() - i,
    {
        assert(seen[i as int] == all@[i as int]@);
        assert(seen.skip(i as int)[0] == seen[i as int]);
        assert(seen.skip(i as int).drop_first() =~= seen.skip(i + 1));
        let line: &[char] = all[i].as_slice();
        if line.len() >= 7 {
            let start: &[char] = slice_subrange(line, 0, 7);
            assert(start@ =~= line@.take(7));
            if spells(start, "CapEff:") {
                let rest: &[char] = slice_subrange(line, 7, line.len());
                assert(rest@ =~= line@.skip(7));
                let digits: &[char] = trim(rest);
                let digits: &[char] = if digits.len() > 0 && digits[0] == '+' {
                    let tail: &[char] = slice_subrange(digits, 1, digits.len());
                    assert(tail@ =~= digits@.drop_first());
                    tail
                } else {
                    digits
                };
                return match read_hex(digits) {
                    Some(set) => (set / 0x200_0000) % 2 == 1,
                    None => false,
                };
            }
        }
        i = i + 1;
    }
    assert(seen.skip(i as int) =~= Seq::empty());
    false
}

} // verus!
