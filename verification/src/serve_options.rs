//! The command line of the server.

use vstd::prelude::*;
use vstd::string::StringExecFns;

use crate::config::texts;
use crate::flags::{
    flag_integer, flag_natural, flag_real, flag_value, not_known, read_integer, read_natural,
    read_real, read_value, unknown_flag,
};
use crate::policy::RateLimitConfig;
use crate::text::{chars_of, spells, string_of};

verus! {

pub struct ServeOptions {
    pub ntp_bind: String,
    pub ke_bind: String,
    pub stratum: u8,
    /// Serve NTS-KE as well as plain NTP.
    pub nts: bool,
    /// Files with the PEM certificate chain and PKCS#8 key. When absent and
    /// `nts` is set, a self-signed certificate is generated for `nts_name`:
    /// development only; clients must then be told to trust it explicitly.
    pub cert_path: Option<String>,
    pub key_path: Option<String>,
    pub nts_name: String,
    /// Write the certificate we serve to this path.
    pub write_cert: Option<String>,
    /// State file. When given, the NTS master key ring is persisted and
    /// reloaded, so cookies minted before a restart still redeem after it.
    pub state_path: Option<String>,
    /// Passphrase for the state file.
    pub state_passphrase: Option<String>,
    /// HTTP gateway address, when the browser door should be open.
    pub gateway_bind: Option<String>,
    /// Directory holding the built wasm assets the status page loads.
    pub gateway_assets: Option<String>,
    /// Rate limits. Where `global_rate` is set, the two global ones are its
    /// number of responses per second, and twice that as the burst.
    pub rate_limit: RateLimitConfig,
    pub global_rate: Option<String>,
    /// Where the control client connects.
    pub control_path: String,
}

/// The options as a value.
pub ghost struct ServeValue {
    pub ntp_bind: Seq<char>,
    pub ke_bind: Seq<char>,
    pub stratum: u8,
    pub nts: bool,
    pub cert_path: Option<Seq<char>>,
    pub key_path: Option<Seq<char>>,
    pub nts_name: Seq<char>,
    pub write_cert: Option<Seq<char>>,
    pub state_path: Option<Seq<char>>,
    pub state_passphrase: Option<Seq<char>>,
    pub gateway_bind: Option<Seq<char>>,
    pub gateway_assets: Option<Seq<char>>,
    pub rate_limit: RateLimitConfig,
    pub global_rate: Option<Seq<char>>,
    pub control_path: Seq<char>,
}

/// An optional string's text.
pub open spec fn text_of(s: Option<String>) -> Option<Seq<char>> {
    match s {
        Some(t) => Some(t@),
        None => None,
    }
}

impl View for ServeOptions {
    type V = ServeValue;

    open spec fn view(&self) -> ServeValue {
        ServeValue {
            ntp_bind: self.ntp_bind@,
            ke_bind: self.ke_bind@,
            stratum: self.stratum,
            nts: self.nts,
            cert_path: text_of(self.cert_path),
            key_path: text_of(self.key_path),
            nts_name: self.nts_name@,
            write_cert: text_of(self.write_cert),
            state_path: text_of(self.state_path),
            state_passphrase: text_of(self.state_passphrase),
            gateway_bind: text_of(self.gateway_bind),
            gateway_assets: text_of(self.gateway_assets),
            rate_limit: self.rate_limit,
            global_rate: text_of(self.global_rate),
            control_path: self.control_path@,
        }
    }
}

/// The limits that come to none: a token per microsecond with a large burst, and
/// no global ceiling.
pub open spec fn no_limits() -> RateLimitConfig {
    RateLimitConfig {
        interval_log2: (-20) as i8,
        burst: 1_000_000,
        leak_shift: 0,
        global_rate_nhz: 0,
        global_burst_nano: 0,
    }
}

/// The options with the flag at the front of `args` added, and how many
/// arguments it took.
pub open spec fn serve_flag(args: Seq<Seq<char>>, opts: ServeValue) -> Result<
    (ServeValue, int),
    Seq<char>,
> {
    let flag = args[0];
    if flag == "--nts"@ {
        Ok((ServeValue { nts: true, ..opts }, 1))
    } else if flag == "--no-ratelimit"@ {
        Ok((ServeValue { rate_limit: no_limits(), global_rate: None, ..opts }, 1))
    } else if flag == "--ratelimit-interval"@ {
        match flag_integer(args, -128, 127) {
            Err(e) => Err(e),
            Ok(n) => Ok(
                (
                    ServeValue {
                        rate_limit: RateLimitConfig { interval_log2: n as i8, ..opts.rate_limit },
                        ..opts
                    },
                    2,
                ),
            ),
        }
    } else if flag == "--ratelimit-burst"@ {
        match flag_natural(args, u32::MAX as nat) {
            Err(e) => Err(e),
            Ok(n) => Ok(
                (
                    ServeValue {
                        rate_limit: RateLimitConfig { burst: n as u32, ..opts.rate_limit },
                        ..opts
                    },
                    2,
                ),
            ),
        }
    } else if flag == "--ratelimit-global"@ {
        match flag_real(args) {
            Err(e) => Err(e),
            Ok(rate) => Ok((ServeValue { global_rate: Some(rate), ..opts }, 2)),
        }
    } else if flag == "--stratum"@ {
        match flag_natural(args, u8::MAX as nat) {
            Err(e) => Err(e),
            Ok(n) => Ok((ServeValue { stratum: n as u8, ..opts }, 2)),
        }
    } else if !takes_text(flag) {
        Err(unknown_flag(flag))
    } else {
        match flag_value(args) {
            Err(e) => Err(e),
            Ok(v) => Ok((with_text(flag, v, opts), 2)),
        }
    }
}

/// Whether a flag is followed by a text.
pub open spec fn takes_text(flag: Seq<char>) -> bool {
    ||| flag == "--bind"@
    ||| flag == "--ke-bind"@
    ||| flag == "--nts-name"@
    ||| flag == "--write-cert"@
    ||| flag == "--state"@
    ||| flag == "--control"@
    ||| flag == "--gateway"@
    ||| flag == "--gateway-assets"@
    ||| flag == "--cert"@
    ||| flag == "--key"@
}

/// The options with a text set.
pub open spec fn with_text(flag: Seq<char>, v: Seq<char>, opts: ServeValue) -> ServeValue {
    if flag == "--bind"@ {
        ServeValue { ntp_bind: v, ..opts }
    } else if flag == "--ke-bind"@ {
        ServeValue { ke_bind: v, ..opts }
    } else if flag == "--nts-name"@ {
        ServeValue { nts_name: v, ..opts }
    } else if flag == "--write-cert"@ {
        ServeValue { write_cert: Some(v), ..opts }
    } else if flag == "--state"@ {
        ServeValue { state_path: Some(v), ..opts }
    } else if flag == "--control"@ {
        ServeValue { control_path: v, ..opts }
    } else if flag == "--gateway"@ {
        ServeValue { gateway_bind: Some(v), ..opts }
    } else if flag == "--gateway-assets"@ {
        ServeValue { gateway_assets: Some(v), ..opts }
    } else if flag == "--cert"@ {
        ServeValue { cert_path: Some(v), ..opts }
    } else {
        ServeValue { key_path: Some(v), ..opts }
    }
}

/// The options with all flags of `args` added.
pub open spec fn with_serve_flags(args: Seq<Seq<char>>, opts: ServeValue) -> Result<
    ServeValue,
    Seq<char>,
>
    decreases args.len(),
{
    if args.len() == 0 {
        Ok(opts)
    } else {
        match serve_flag(args, opts) {
            Err(e) => Err(e),
            Ok((next, taken)) => if 0 < taken <= args.len() {
                with_serve_flags(args.skip(taken), next)
            } else {
                Ok(next)
            },
        }
    }
}

/// The options before any flag.
pub open spec fn serve_defaults(passphrase: Option<Seq<char>>, control: Seq<char>) -> ServeValue {
    ServeValue {
        ntp_bind: "0.0.0.0:123"@,
        ke_bind: "0.0.0.0:4460"@,
        stratum: 1,
        nts: false,
        cert_path: None,
        key_path: None,
        nts_name: "localhost"@,
        write_cert: None,
        state_path: None,
        state_passphrase: passphrase,
        gateway_bind: None,
        gateway_assets: None,
        rate_limit: RateLimitConfig {
            interval_log2: 3,
            burst: 8,
            leak_shift: 2,
            global_rate_nhz: 20_000_000_000_000,
            global_burst_nano: 40_000_000_000_000,
        },
        global_rate: None,
        control_path: control,
    }
}

/// What a command line asks for.
pub open spec fn serve_of(
    args: Seq<Seq<char>>,
    passphrase: Option<Seq<char>>,
    control: Seq<char>,
) -> Result<ServeValue, Seq<char>> {
    match with_serve_flags(args, serve_defaults(passphrase, control)) {
        Err(e) => Err(e),
        Ok(opts) => if 1 <= opts.stratum <= 15 {
            Ok(opts)
        } else {
            Err("--stratum must be 1..=15"@)
        },
    }
}

impl ServeOptions {
    /// Read a command line. The passphrase comes from the environment and the
    /// control path from the platform; a flag overrides the latter.
    pub fn parse(args: &[String], passphrase: Option<String>, control_path: String) -> (opts: Result<
        ServeOptions,
        String,
    >)
        ensures
            match serve_of(texts(args@), text_of(passphrase), control_path@) {
                Ok(v) => opts is Ok && opts->Ok_0@ == v,
                Err(e) => opts is Err && opts->Err_0@ == e,
            },
    {
        let ghost all = texts(args@);
        let mut opts = ServeOptions {
            ntp_bind: "0.0.0.0:123".to_owned(),
            ke_bind: "0.0.0.0:4460".to_owned(),
            stratum: 1,
            nts: false,
            cert_path: None,
            key_path: None,
            nts_name: "localhost".to_owned(),
            write_cert: None,
            state_path: None,
            state_passphrase: passphrase,
            gateway_bind: None,
            gateway_assets: None,
            rate_limit: RateLimitConfig::default(),
            global_rate: None,
            control_path,
        };
        let ghost goal = with_serve_flags(all, opts@);
        assert(opts@ == serve_defaults(text_of(passphrase), control_path@));
        assert(all.skip(0) =~= all);
        let mut at: usize = 0;
        while at < args.len()
            invariant
                at <= args@.len(),
                all == texts(args@),
                goal == with_serve_flags(all.skip(at as int), opts@),
                goal == with_serve_flags(all, serve_defaults(text_of(passphrase), control_path@)),
            decreases args@.len() - at,
        {
            let ghost rest = all.skip(at as int);
            match opts.take_flag(args, at) {
                Ok(taken) => {
                    assert(rest.skip(taken as int) =~= all.skip(at + taken));
                    at = at + taken;
                },
                Err(e) => {
                    return Err(e);
                },
            }
        }
        assert(all.skip(at as int) =~= Seq::empty());
        if opts.stratum == 0 || opts.stratum > 15 {
            return Err("--stratum must be 1..=15".to_owned());
        }
        Ok(opts)
    }

    /// Take the flag at `at`, and its value.
    fn take_flag(&mut self, args: &[String], at: usize) -> (taken: Result<usize, String>)
        requires
            at < args@.len(),
        ensures
            match serve_flag(texts(args@).skip(at as int), old(self)@) {
                Ok((next, n)) => taken is Ok && taken->Ok_0 == n && final(self)@ == next && 0 < n
                    && at + n <= args@.len(),
                Err(e) => taken is Err && taken->Err_0@ == e,
            },
    {
        let word: Vec<char> = chars_of(args[at].as_str());
        let flag: &[char] = word.as_slice();
        assert(texts(args@).skip(at as int)[0] == flag@);
        if spells(flag, "--nts") {
            self.nts = true;
            return Ok(1);
        }
        if spells(flag, "--no-ratelimit") {
            self.rate_limit = RateLimitConfig {
                interval_log2: -20,
                burst: 1_000_000,
                leak_shift: 0,
                global_rate_nhz: 0,
                global_burst_nano: 0,
            };
            self.global_rate = None;
            return Ok(1);
        }
        if spells(flag, "--ratelimit-interval") {
            match read_integer(args, at, flag, -128, 127) {
                Err(e) => {
                    return Err(e);
                },
                Ok(n) => {
                    self.rate_limit.interval_log2 = n as i8;
                    return Ok(2);
                },
            }
        }
        if spells(flag, "--ratelimit-burst") {
            match read_natural(args, at, flag, u32::MAX as u64) {
                Err(e) => {
                    return Err(e);
                },
                Ok(n) => {
                    self.rate_limit.burst = n as u32;
                    return Ok(2);
                },
            }
        }
        if spells(flag, "--ratelimit-global") {
            match read_real(args, at, flag) {
                Err(e) => {
                    return Err(e);
                },
                Ok(rate) => {
                    self.global_rate = Some(rate);
                    return Ok(2);
                },
            }
        }
        if spells(flag, "--stratum") {
            match read_natural(args, at, flag, u8::MAX as u64) {
                Err(e) => {
                    return Err(e);
                },
                Ok(n) => {
                    self.stratum = n as u8;
                    return Ok(2);
                },
            }
        }
        let known: bool = spells(flag, "--bind") || spells(flag, "--ke-bind") || spells(
            flag,
            "--nts-name",
        ) || spells(flag, "--write-cert") || spells(flag, "--state") || spells(flag, "--control")
            || spells(flag, "--gateway") || spells(flag, "--gateway-assets") || spells(
            flag,
            "--cert",
        ) || spells(flag, "--key");
        if !known {
            return Err(not_known(flag));
        }
        let value: String = match read_value(args, at, flag) {
            Err(e) => {
                return Err(e);
            },
            Ok(v) => string_of(v.as_slice()),
        };
        if spells(flag, "--bind") {
            self.ntp_bind = value;
        } else if spells(flag, "--ke-bind") {
            self.ke_bind = value;
        } else if spells(flag, "--nts-name") {
            self.nts_name = value;
        } else if spells(flag, "--write-cert") {
            self.write_cert = Some(value);
        } else if spells(flag, "--state") {
            self.state_path = Some(value);
        } else if spells(flag, "--control") {
            self.control_path = value;
        } else if spells(flag, "--gateway") {
            self.gateway_bind = Some(value);
        } else if spells(flag, "--gateway-assets") {
            self.gateway_assets = Some(value);
        } else if spells(flag, "--cert") {
            self.cert_path = Some(value);
        } else {
            self.key_path = Some(value);
        }
        Ok(2)
    }
}

} // verus!
