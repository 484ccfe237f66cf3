use rusty_time::config::parse;
use rusty_time::query_options::Options;
use rusty_time::serve_options::ServeOptions;
use rusty_time::sync_options::{LeapMode, SyncOptions};

fn number(text: &str) -> f64 {
    text.parse().expect("a number")
}

fn args(words: &[&str]) -> Vec<String> {
    words.iter().map(|w| w.to_string()).collect()
}

#[test]
fn parses_typical_chrony_conf() {
    let text = "\
# NTP servers
pool 2.pool.ntp.org iburst
server ntp.example.com iburst minpoll 4 maxpoll 8
makestep 1.0 3
maxslewrate 83333.0
driftfile /var/lib/chrony/drift
rtcsync
allow 192.168.0.0/16
";
    let cfg = parse(text).expect("parse");
    assert_eq!(cfg.servers.len(), 2);
    assert!(cfg.servers[0].is_pool && cfg.servers[0].iburst);
    assert_eq!(cfg.servers[1].min_poll, Some(4));
    assert_eq!(cfg.makestep.map(|(t, n)| (number(&t), n)), Some((1.0, 3)));
    assert_eq!(cfg.max_slew_ppm.map(|t| number(&t)), Some(83333.0));
    assert_eq!(cfg.allow, vec!["192.168.0.0/16".to_string()]);
    assert_eq!(cfg.ignored.len(), 2);
    assert_eq!(cfg.ignored[0], (6, "driftfile".to_string()));
}

#[test]
fn negative_makestep_limit_means_always() {
    let cfg = parse("makestep 0.1 -1").expect("parse");
    assert_eq!(cfg.makestep.map(|(t, n)| (number(&t), n)), Some((0.1, u32::MAX)));
}

#[test]
fn bad_value_is_an_error_with_line() {
    let e = parse("server\n").expect_err("should fail");
    assert_eq!(e.line, 1);
    let e = parse("# ok\nmakestep abc 3").expect_err("should fail");
    assert_eq!(e.line, 2);
}

#[test]
fn the_first_bad_line_decides() {
    let e = parse("server a\nmakestep 1 x\nserver\n").expect_err("should fail");
    assert_eq!(e.line, 2);
    assert!(parse("server a\n\n   \n! comment\n; comment\n% comment\n").is_ok());
}

#[test]
fn access_lists_keep_their_order() {
    let cfg = parse("allow 10.0.0.0/8\ndeny 10.1.0.0/16\nallow 1.2.3.4\n").expect("parse");
    assert_eq!(cfg.allow, vec!["10.0.0.0/8".to_string(), "1.2.3.4".to_string()]);
    assert_eq!(cfg.deny, vec!["10.1.0.0/16".to_string()]);
}

#[test]
fn options_parse_and_validate() {
    let opts = Options::parse(&args(&["pool.ntp.org", "--count", "8", "--json"])).expect("parse");
    assert_eq!(opts.count, 8);
    assert!(opts.json);
    assert!(Options::parse(&args(&["--json"])).is_err(), "server required");
    assert!(Options::parse(&args(&["h", "--count", "0"])).is_err(), "count 0 rejected");
}

#[test]
fn query_flags_complain_by_name() {
    assert_eq!(
        Options::parse(&args(&["h", "--port"])).expect_err("no value"),
        "--port needs a value"
    );
    assert_eq!(
        Options::parse(&args(&["h", "--port", "x"])).expect_err("no number"),
        "--port: cannot parse value"
    );
    assert_eq!(
        Options::parse(&args(&["h", "--what"])).expect_err("unknown"),
        "unknown flag '--what'"
    );
    let opts = Options::parse(&args(&["h", "--port", "1123", "--timeout-ms", "7"])).expect("parse");
    assert_eq!((opts.server.as_str(), opts.port, opts.timeout_ms), ("h", 1123, 7));
}

#[test]
fn options_require_a_server() {
    assert!(SyncOptions::parse(&[]).is_err());
    assert!(SyncOptions::parse(&args(&["--dry-run"])).is_err());
    let opts = SyncOptions::parse(&args(&["pool.ntp.org", "--dry-run"])).expect("parse");
    assert_eq!(opts.servers, vec!["pool.ntp.org".to_string()]);
    assert!(opts.dry_run);
}

#[test]
fn discipline_knobs_are_configurable_for_a_fair_comparison() {
    let opts = SyncOptions::parse(&args(&[
        "s", "--minpoll", "2", "--maxpoll", "6", "--makestep", "1.0", "3",
    ]))
    .expect("parse");
    assert_eq!(opts.discipline.min_poll, 2);
    assert_eq!(opts.discipline.max_poll, 6);
    assert_eq!(opts.discipline.makestep_threshold.map(|t| number(&t)), Some(1.0));
    assert_eq!(opts.discipline.makestep_limit, 3);
}

#[test]
fn a_negative_makestep_limit_means_always() {
    let opts = SyncOptions::parse(&args(&["s", "--makestep", "0.1", "-1"])).expect("parse");
    assert_eq!(opts.discipline.makestep_limit, u32::MAX);
}

#[test]
fn several_servers_and_the_leap_mode_are_taken() {
    let opts =
        SyncOptions::parse(&args(&["a", "b", "--leapsecmode", "slew", "c"])).expect("parse");
    assert_eq!(opts.servers, args(&["a", "b", "c"]));
    assert_eq!(opts.discipline.leap_mode, Some(LeapMode::Slew));
    assert!(SyncOptions::parse(&args(&["a", "--leapsecmode", "sideways"])).is_err());
}

#[test]
fn serving_takes_its_passphrase_and_its_control_name_from_outside() {
    let opts = ServeOptions::parse(
        &args(&["--nts", "--stratum", "3", "--bind", "127.0.0.1:1123"]),
        Some("secret".to_string()),
        "/run/x.sock".to_string(),
    )
    .expect("parse");
    assert!(opts.nts);
    assert_eq!(opts.stratum, 3);
    assert_eq!(opts.ntp_bind, "127.0.0.1:1123");
    assert_eq!(opts.ke_bind, "0.0.0.0:4460");
    assert_eq!(opts.state_passphrase, Some("secret".to_string()));
    assert_eq!(opts.control_path, "/run/x.sock");
    assert!(ServeOptions::parse(&args(&["--nope"]), None, String::new()).is_err());
}

#[test]
fn one_text_behind_another_adds_to_it() {
    let a = "server one\nmakestep 1.0 3\nrtcsync\nallow 10.0.0.0/8\n";
    let b = "maxslewrate 500\nserver two key 7\nmakestep 2.0 -1\nallow\nlogdir x";
    let both = parse(&format!("{a}{b}")).expect("parse");
    let hosts: Vec<String> = both.servers.into_iter().map(|s| s.host).collect();
    assert_eq!(hosts, vec!["one".to_string(), "two".to_string()]);
    assert_eq!(both.makestep.map(|(t, n)| (number(&t), n)), Some((2.0, u32::MAX)));
    assert_eq!(both.max_slew_ppm.map(|t| number(&t)), Some(500.0));
    assert_eq!(both.allow, vec!["10.0.0.0/8".to_string(), "all".to_string()]);
    assert_eq!(
        both.ignored,
        vec![
            (3, "rtcsync".to_string()),
            (6, "server option 'key'".to_string()),
            (9, "logdir".to_string())
        ]
    );
    let e = parse(&format!("{a}server")).expect_err("no host");
    assert_eq!((e.line, e.message.as_str()), (5, "server needs a host"));
}

#[test]
fn the_largest_change_is_a_positive_finite_number() {
    let set = |offset: &str| SyncOptions::parse(&args(&["host", "--maxchange", offset, "1", "2"]));
    let texts = [
        "1", "+0.5", "1e999", "1e-999", "0", "0.0e5", "-1", "inf", "nan", "1e308", "2e308",
        "1.7976931348623157e308", "1.7976931348623158e308", "1.7976931348623159e308",
        "17976931348623158079372897140530341507993413271003782693617377898044496829276475094664",
        "4.9e-324", "2.4703282292062327e-324", "2.4703282292062328e-324", "2e-324", ".1", "1.",
        "0.00000000000000000000000000000000000000001e300", "1e99999999999999999999999999999999",
        "1e-99999999999999999999999999999999", "1e00000000000000000000000000000000000000003",
    ];
    for text in texts {
        let offset: f64 = text.parse().expect("a number");
        let fine = offset.is_finite() && offset > 0.0;
        match set(text) {
            Ok(_) => assert!(fine, "took {text}"),
            Err(e) => {
                assert!(!fine, "refused {text}");
                assert_eq!(e, "--maxchange: offset must be a positive number of seconds");
            }
        }
    }
    // The least number that rounds to infinity, and the one below it.
    let edge = "179769313486231580793728971405303415079934132710037826936173778980444968292764\
                750946649017977587207096330286416692887910946555547851940402630657488671505820\
                681908902000708383676273854845817711531764475730270069855571366959622842914819\
                860834936475292719074168444365510704342711559699508093042880177904174497";
    assert!(set(&format!("{edge}792")).is_err());
    assert!(set(&format!("{edge}791")).is_ok());
    assert!(set(&format!("{edge}791.99")).is_ok());
}
