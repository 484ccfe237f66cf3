use rusty_time::service::{
    grants_the_clock, notify_socket, ready_message, service_definition, service_definition_path,
    serving_status, should_adopt_activated, status_message, NotifySocket, Platform,
};

#[test]
fn service_definition_names_the_binary_and_is_not_empty() {
    for platform in [Platform::Linux, Platform::MacOs, Platform::Windows] {
        let text = service_definition(platform, "/usr/sbin/rtimed");
        assert!(text.contains("/usr/sbin/rtimed"), "definition must reference the executable");
        assert!(text.len() > 100, "definition looks truncated");
        assert!(!service_definition_path(Some(platform)).is_empty());
    }
    assert_eq!(service_definition_path(None), "rusty_time.service");
}

#[test]
fn systemd_unit_is_hardened_and_uses_readiness() {
    let unit = service_definition(Platform::Linux, "/usr/sbin/rtimed");
    assert!(unit.contains("Type=notify"));
    assert!(unit.contains("CapabilityBoundingSet=CAP_SYS_TIME"));
    assert!(unit.contains("NoNewPrivileges=yes"));
    assert!(unit.contains("ProtectSystem=strict"));
    assert!(unit.contains("ExecStart=/usr/sbin/rtimed serve --nts\n"));
}

#[test]
fn windows_installer_creates_an_auto_start_service() {
    let cmd = service_definition(Platform::Windows, r"C:\Program Files\rusty_time\rtimed.exe");
    assert!(cmd.contains("sc.exe create rusty_time"));
    assert!(cmd.contains("start= auto"));
}

#[test]
fn the_unit_drops_every_privilege_but_the_clock() {
    let unit = service_definition(Platform::Linux, "/usr/sbin/rtimed");
    for property in [
        "AmbientCapabilities=CAP_SYS_TIME",
        "MemoryDenyWriteExecute=yes",
        "StateDirectory=rusty_time",
        "RuntimeDirectory=rusty_time",
    ] {
        assert!(unit.contains(property), "output is missing {property}");
    }
}

#[test]
fn activation_is_refused_unless_the_descriptors_are_ours() {
    assert!(should_adopt_activated(Some("42"), Some("1"), 42));
    assert!(!should_adopt_activated(Some("41"), Some("1"), 42));
    assert!(!should_adopt_activated(None, None, 42));
    assert!(!should_adopt_activated(Some("42"), Some("0"), 42));
    assert!(!should_adopt_activated(Some("not-a-pid"), Some("1"), 42));
    assert!(!should_adopt_activated(Some("42"), Some("many"), 42));
    assert!(!should_adopt_activated(Some("42"), Some("-1"), 42));
    assert!(!should_adopt_activated(Some("42"), Some("2147483648"), 42));
}

#[test]
fn announcements_are_lines() {
    assert_eq!(ready_message("up"), "READY=1\nSTATUS=up\n");
    assert_eq!(status_message("busy"), "STATUS=busy\n");
    assert_eq!(
        serving_status(12, 10, 2, 3),
        "12 requests, 10 answered, 2 rate-limited, 3 clients"
    );
}

#[test]
fn abstract_sockets_are_told_by_their_sign() {
    assert!(matches!(notify_socket("@abc"), NotifySocket::Abstract(n) if n == "abc"));
    assert!(matches!(notify_socket("/run/x"), NotifySocket::Path(p) if p == "/run/x"));
    assert!(matches!(notify_socket(""), NotifySocket::Path(p) if p.is_empty()));
}

#[test]
fn the_clock_capability_is_one_bit() {
    assert!(grants_the_clock("Name:\tx\nCapEff:\t0000000002000000\nCapBnd:\t0\n"));
    assert!(!grants_the_clock("Name:\tx\nCapEff:\t0000000001ffffff\n"));
    assert!(grants_the_clock("CapEff:\tFFFFFFFFFFFFFFFF"));
    assert!(!grants_the_clock("CapEff:\t1ffffffffffffffff"));
    assert!(!grants_the_clock("CapPrm:\t0000000002000000\n"));
    assert!(!grants_the_clock("CapEff:\txyz\nCapEff:\t0000000002000000\n"));
    assert!(!grants_the_clock(""));
}
