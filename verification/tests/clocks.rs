use rusty_time::discipline::ClockCommand;
use rusty_time::slew::{
    linux_freq_units, linux_max_slew_ppq, linux_tick_and_freq, macos_adjtime_amount,
    seconds_and_nanos, total_ppq, windows_adjustment, LINUX_MAX_ADJ_FREQ_PPQ, MACOS_MAX_HORIZON_S,
};
use rusty_time::vclock::{VirtualClock, VirtualDriver};

/// Parts per quadrillion of parts per million.
fn ppq(ppm: f64) -> i64 {
    (ppm * 1e9).round() as i64
}

/// Picoseconds of seconds.
fn ps(s: f64) -> i128 {
    (s * 1e12).round() as i128
}

fn ns(s: f64) -> u64 {
    (s * 1e9).round() as u64
}

fn wall(s: f64) -> i64 {
    (s * 1e9).round() as i64
}

const TICK_100HZ: i64 = 10_000;

#[test]
fn unsynchronized_reports_infinite_error() {
    let vc = VirtualClock::new();
    assert!(vc.confidence(ns(100.0)).is_none());
    assert!(!vc.is_synchronized());
}

#[test]
fn correction_and_skew_are_applied() {
    let mut vc = VirtualClock::new();
    // 10 parts per million are ten million parts per trillion.
    vc.update(ns(1000.0), wall(0.002), Some(10_000_000), wall(1e-4));
    let t = vc.now(ns(1000.0), wall(5000.0)) as f64 * 1e-9;
    assert!((t - 5000.002).abs() < 1e-9);
    let t = vc.now(ns(1100.0), wall(5100.0)) as f64 * 1e-9;
    assert!((t - 5100.001).abs() < 1e-9, "{t}");
}

#[test]
fn output_never_steps_backwards() {
    let mut vc = VirtualClock::new();
    vc.update(0, 0, None, wall(1e-4));
    let t1 = vc.now(ns(10.0), wall(100.0));
    vc.update(ns(10.0), wall(-0.050), None, wall(1e-4));
    let t2 = vc.now(ns(10.001), wall(100.001));
    assert!(t2 >= t1, "stepped backwards: {t1} -> {t2}");
}

#[test]
fn error_bound_grows_over_time() {
    let mut vc = VirtualClock::new();
    vc.update(0, 0, None, wall(1e-4));
    let e0 = vc.confidence(0).expect("bound") as f64 * 1e-9;
    let e1 = vc.confidence(ns(3600.0)).expect("bound") as f64 * 1e-9;
    assert!(e1 > e0);
    assert!((e1 - (1e-4 + 0.054)).abs() < 1e-3, "{e1}");
}

#[test]
fn commands_are_absorbed() {
    let mut d = VirtualDriver::new();
    d.apply(&ClockCommand::Step { add_ps: ps(0.5) });
    d.apply(&ClockCommand::Slew {
        freq_ppq: ppq(-12.0),
        drain_offset_ps: ps(0.001),
        drain_rate_ppq: ppq(500.0) as u64,
    });
    assert_eq!(d.stepped_total(), ps(0.5));
    assert_eq!(d.freq_ppq(), ppq(-12.0));
}

#[test]
fn a_driver_hands_measurements_to_its_clock() {
    let mut d = VirtualDriver::new();
    d.update_measurement(ns(5.0), wall(0.25), None, wall(0.001));
    assert!(d.vclock.is_synchronized());
    assert_eq!(d.vclock.now(ns(5.0), wall(10.0)), wall(10.25) as i128);
}

#[test]
fn drain_direction_sets_the_sign() {
    let most = ppq(1e6) as u64;
    assert!(total_ppq(0, ps(0.010), ppq(50.0) as u64, most) > 0);
    assert!(total_ppq(0, ps(-0.010), ppq(50.0) as u64, most) < 0);
    assert_eq!(total_ppq(ppq(10.0), ps(0.001), ppq(5.0) as u64, most), ppq(15.0) as i128);
}

#[test]
fn total_ppm_respects_the_platform_ceiling() {
    let most = ppq(500.0) as u64;
    assert_eq!(total_ppq(ppq(1e9), ps(1.0), ppq(1e9) as u64, most), ppq(500.0) as i128);
    assert_eq!(total_ppq(-ppq(1e9), ps(-1.0), ppq(1e9) as u64, most), -ppq(500.0) as i128);
}

#[test]
fn small_corrections_leave_the_tick_alone() {
    for ppm in [0.0, 1.0, -50.0, 499.0, -499.0] {
        let (tick, residual) = linux_tick_and_freq(ppq(ppm), TICK_100HZ);
        assert_eq!(tick, TICK_100HZ, "tick moved for {ppm} ppm");
        assert_eq!(residual, ppq(ppm));
    }
}

/// What a tick and a residual come to, in parts per million.
fn delivered(tick: i64, residual: i64, nominal: i64) -> f64 {
    (tick - nominal) as f64 * (1e6 / nominal as f64) + residual as f64 * 1e-9
}

#[test]
fn large_corrections_are_delivered_in_full() {
    for ppm in [1_716.0, -1_716.0, 5_000.0, -20_000.0, 83_333.0] {
        let (tick, residual) = linux_tick_and_freq(ppq(ppm), TICK_100HZ);
        let got = delivered(tick, residual, TICK_100HZ);
        assert!((got - ppm).abs() < 1e-6, "asked {ppm} ppm, driver would deliver {got} ppm");
    }
}

#[test]
fn the_residual_always_fits_the_kernels_frequency_limit() {
    for tick in [1_000i64, 10_000, 4_000] {
        for ppm in [0.0, 600.0, -600.0, 1e5, -1e5, 1e9, -1e9] {
            let (_, residual) = linux_tick_and_freq(ppq(ppm), tick);
            assert!(
                residual.abs() <= LINUX_MAX_ADJ_FREQ_PPQ,
                "tick {tick}, {ppm} ppm left residual {residual}"
            );
        }
    }
}

#[test]
fn the_tick_stays_inside_what_the_kernel_will_accept() {
    for tick in [1_000i64, 10_000, 4_000] {
        for ppm in [1e9, -1e9, 250_000.0] {
            let (out, _) = linux_tick_and_freq(ppq(ppm), tick);
            assert!(
                out >= 900_000 / (1_000_000 / tick) && out <= 1_100_000 / (1_000_000 / tick),
                "tick {out} outside the kernel's window for nominal {tick}"
            );
        }
    }
}

#[test]
fn the_advertised_ceiling_is_one_the_driver_can_reach() {
    for tick in [1_000i64, 10_000, 4_000] {
        let ceiling = linux_max_slew_ppq(tick);
        let (out, residual) = linux_tick_and_freq(ceiling, tick);
        let got = delivered(out, residual, tick);
        let wanted = ceiling as f64 * 1e-9;
        assert!((got - wanted).abs() < 1e-6, "advertised {wanted} ppm but delivers {got}");
    }
    assert!(linux_max_slew_ppq(TICK_100HZ) > ppq(99_000.0));
    assert_eq!(linux_max_slew_ppq(0), LINUX_MAX_ADJ_FREQ_PPQ);
}

#[test]
fn windows_adjustment_scales_the_increment() {
    let increment = 156_250u64;
    assert_eq!(windows_adjustment(increment, 0), increment);
    let faster = windows_adjustment(increment, ppq(1_000.0));
    assert!((faster as f64 / increment as f64 - 1.001).abs() < 1e-4);
    let slower = windows_adjustment(increment, ppq(-1_000.0));
    assert!(slower < increment);
}

#[test]
fn windows_adjustment_never_wraps_negative() {
    assert_eq!(windows_adjustment(1000, ppq(-2_000_000.0)), 0);
    assert_eq!(windows_adjustment(u64::MAX, ppq(1_000.0)), u64::MAX);
}

#[test]
fn macos_amount_carries_the_offset_when_there_is_no_frequency_term() {
    assert_eq!(macos_adjtime_amount(0, ps(0.005), ppq(100.0) as u64), ps(0.005));
}

#[test]
fn macos_amount_projects_frequency_over_the_drain_horizon() {
    let amount = macos_adjtime_amount(ppq(20.0), ps(0.010), ppq(100.0) as u64);
    assert_eq!(amount, ps(0.012));
}

#[test]
fn macos_horizon_is_bounded() {
    let amount = macos_adjtime_amount(ppq(500.0), ps(1.0), 1);
    let worst = ps(1.0 + 500.0 * 1e-6 * MACOS_MAX_HORIZON_S as f64);
    assert!(amount <= worst, "amount {amount} exceeded the bounded horizon {worst}");
}

#[test]
fn macos_amount_is_zero_when_there_is_nothing_to_do() {
    assert_eq!(macos_adjtime_amount(0, 0, 0), 0);
    assert_eq!(macos_adjtime_amount(ppq(50.0), 0, 0), 0);
}

#[test]
fn macos_sign_follows_the_offset() {
    assert!(macos_adjtime_amount(0, ps(-0.005), ppq(100.0) as u64) < 0);
    assert!(macos_adjtime_amount(0, ps(0.005), ppq(100.0) as u64) > 0);
}

#[test]
fn a_step_splits_into_seconds_and_nanoseconds() {
    assert_eq!(seconds_and_nanos(1_500_000_000), (1, 500_000_000));
    assert_eq!(seconds_and_nanos(-1), (-1, 999_999_999));
    assert_eq!(seconds_and_nanos(-2_000_000_000), (-2, 0));
}

#[test]
fn the_frequency_knob_counts_in_parts_of_a_millionth() {
    assert_eq!(linux_freq_units(ppq(1.0)), 65_536);
    assert_eq!(linux_freq_units(ppq(-2.0)), -131_072);
    assert_eq!(linux_freq_units(1), 0);
}
