use rusty_time::api::{
    bind_port, control_endpoint, default_control_spec, derive_port, loopback_endpoint,
    ControlEndpoint, DERIVED_PORT_BASE, DERIVED_PORT_SPAN,
};
use std::collections::HashSet;

#[test]
fn the_default_spec_resolves_the_same_way_for_everyone() {
    let a = control_endpoint(&default_control_spec(None));
    let b = control_endpoint(&default_control_spec(None));
    assert_eq!(a, b);
}

#[test]
fn an_explicit_port_is_honoured_on_every_platform() {
    assert_eq!(control_endpoint("127.0.0.1:9999"), ControlEndpoint::Loopback(9999));
    assert_eq!(loopback_endpoint("127.0.0.1:9999"), ControlEndpoint::Loopback(9999));
}

#[test]
fn the_same_path_resolves_identically_in_both_processes() {
    let a = control_endpoint("/run/rusty_time.sock");
    let b = control_endpoint("/run/rusty_time.sock");
    assert_eq!(a, b, "resolution must be deterministic");
    assert_eq!(
        loopback_endpoint("/run/rusty_time.sock"),
        loopback_endpoint("/run/rusty_time.sock")
    );
}

#[test]
fn different_names_get_different_endpoints() {
    let names = [
        "/run/rusty_time.sock",
        "/tmp/a.sock",
        "/tmp/b.sock",
        "rusty_time",
        "test-rig-1",
        "test-rig-2",
    ];
    let mut seen = HashSet::new();
    let mut ports = HashSet::new();
    for name in names {
        seen.insert(control_endpoint(name));
        ports.insert(loopback_endpoint(name));
    }
    assert!(seen.len() >= names.len() - 1, "control names collided: {seen:?}");
    assert!(ports.len() >= names.len() - 1, "control names collided: {ports:?}");
}

#[test]
fn derived_ports_stay_in_the_intended_range() {
    for name in ["a", "b", "/very/long/path/to/a/socket", ""] {
        let port = derive_port(name);
        assert!(
            (DERIVED_PORT_BASE..DERIVED_PORT_BASE + DERIVED_PORT_SPAN).contains(&port),
            "{name} derived out-of-range port {port}"
        );
    }
}

#[test]
fn a_path_stays_a_unix_socket_on_unix() {
    assert_eq!(
        control_endpoint("/run/rusty_time.sock"),
        ControlEndpoint::UnixPath("/run/rusty_time.sock".into())
    );
}

#[test]
fn a_derived_port_is_the_hash_of_the_name() {
    // FNV-1a, computed here once more.
    for name in ["", "rusty_time", "/run/\u{e9}t\u{e9}.sock"] {
        let mut hash = 0xcbf2_9ce4_8422_2325u64;
        for b in name.bytes() {
            hash ^= b as u64;
            hash = hash.wrapping_mul(0x0000_0100_0000_01b3);
        }
        assert_eq!(derive_port(name), 49_200 + (hash % 300) as u16, "{name}");
    }
}

#[test]
fn a_port_that_is_no_port_leaves_a_name_a_name() {
    for name in ["host:", "host:70000", "host:12x", "a:b"] {
        assert_eq!(control_endpoint(name), ControlEndpoint::UnixPath(name.into()));
    }
}

#[test]
fn bind_addresses_tell_their_port() {
    assert_eq!(bind_port("0.0.0.0:1123"), 1123);
    assert_eq!(bind_port("[::]:4460"), 4460);
    assert_eq!(bind_port("1234"), 1234);
    assert_eq!(bind_port("localhost"), 123);
    assert_eq!(bind_port("host:99999"), 123);
}

#[test]
fn the_runtime_directory_is_used_where_there_is_one() {
    assert_eq!(default_control_spec(Some("/run/user/7")), "/run/user/7/rusty_time.sock");
    assert_eq!(default_control_spec(Some("")), "/tmp/rusty_time.sock");
    assert_eq!(default_control_spec(None), "/tmp/rusty_time.sock");
}
