use rusty_time::discipline::{
    ClockCommand, Discipline, DisciplineConfig, IBURST_COUNT, IBURST_SPACING_LOG2,
    MAX_ACQUIRE_BURST,
};

fn ps(s: f64) -> i128 {
    (s * 1e12).round() as i128
}

fn sd(s: f64) -> u64 {
    (s * 1e12).round() as u64
}

fn ppq(ppm: f64) -> i64 {
    (ppm * 1e9).round() as i64
}

fn acquiring() -> Discipline {
    Discipline::new(DisciplineConfig {
        makestep_threshold: None,
        min_poll: 4,
        iburst: true,
        ..DisciplineConfig::default()
    })
}

#[test]
fn the_burst_continues_while_a_correction_is_outstanding() {
    let mut d = acquiring();
    let mut next = 0i8;
    for _ in 0..IBURST_COUNT + 3 {
        next = d.on_estimate(ps(0.010), None, sd(1e-6)).next_poll_log2;
    }
    assert!(
        next <= IBURST_SPACING_LOG2,
        "burst ended with 10 ms still outstanding: next poll 2^{next} s"
    );
}

#[test]
fn the_burst_ends_once_the_offset_is_small() {
    let mut d = acquiring();
    let mut next = 0i8;
    for _ in 0..IBURST_COUNT + 3 {
        next = d.on_estimate(ps(1e-6), None, sd(1e-6)).next_poll_log2;
    }
    assert!(
        next > IBURST_SPACING_LOG2,
        "burst kept running on a converged clock: next poll 2^{next} s"
    );
}

#[test]
fn the_extended_burst_is_bounded() {
    let mut d = acquiring();
    let mut next = 0i8;
    for _ in 0..MAX_ACQUIRE_BURST * 3 {
        next = d.on_estimate(ps(0.010), None, sd(1e-6)).next_poll_log2;
    }
    assert!(
        next > IBURST_SPACING_LOG2,
        "burst never backed off despite never converging: next poll 2^{next} s"
    );
}

#[test]
fn big_initial_offset_is_stepped() {
    let mut d = Discipline::new(DisciplineConfig::default());
    let plan = d.on_estimate(ps(120.0), None, sd(1e-4));
    assert_eq!(plan.command, ClockCommand::Step { add_ps: ps(120.0) });
    assert!(plan.reset_register);
}

#[test]
fn step_window_closes() {
    let mut d = Discipline::new(DisciplineConfig::default());
    for _ in 0..3 {
        let _ = d.on_estimate(ps(0.0001), None, sd(1e-4));
    }
    let plan = d.on_estimate(ps(5.0), None, sd(1e-4));
    assert!(matches!(plan.command, ClockCommand::Slew { .. }));
}

#[test]
fn freq_accumulates_and_clamps() {
    let mut d = Discipline::new(DisciplineConfig::default());
    let _ = d.on_estimate(ps(1e-4), Some(ppq(100.0)), sd(1e-4));
    assert_eq!(d.freq_ppq(), ppq(100.0));
    let _ = d.on_estimate(ps(1e-4), Some(ppq(1000.0)), sd(1e-4));
    assert_eq!(d.freq_ppq(), ppq(500.0), "clamped at max_freq");
}

#[test]
fn iburst_then_normal_cadence() {
    let mut d = Discipline::new(DisciplineConfig::default());
    let mut intervals = Vec::new();
    for _ in 0..6 {
        let plan = d.on_estimate(ps(1e-5), None, sd(1e-4));
        intervals.push(2f64.powi(plan.next_poll_log2 as i32));
    }
    assert!(intervals[..4].iter().all(|&i| i == 2.0), "{intervals:?}");
    assert!(intervals[4] >= 64.0, "{intervals:?}");
}

#[test]
fn closed_loop_converges() {
    let mut d = Discipline::new(DisciplineConfig {
        iburst: false,
        makestep_threshold: None,
        ..DisciplineConfig::default()
    });
    let mut clock_err_s = 0.030_f64;
    let base_freq_ppm = 40.0;
    let mut t = 0.0;
    for _ in 0..60 {
        let offset = -clock_err_s;
        let slope_ppm = -(base_freq_ppm + d.freq_ppq() as f64 * 1e-9);
        let plan = d.on_estimate(ps(offset), Some(ppq(slope_ppm)), sd(1e-5));
        let dt = 2f64.powi(plan.next_poll_log2 as i32);
        if let ClockCommand::Slew { freq_ppq, drain_offset_ps, drain_rate_ppq } = plan.command {
            let drift = (base_freq_ppm + freq_ppq as f64 * 1e-9) * 1e-6 * dt;
            let max_drain = drain_rate_ppq as f64 * 1e-15 * dt;
            let drain_offset = drain_offset_ps as f64 * 1e-12;
            let drain = drain_offset.abs().min(max_drain) * drain_offset.signum();
            clock_err_s += drift + drain;
        }
        t += dt;
    }
    assert!(clock_err_s.abs() < 1e-4, "did not converge: err {clock_err_s} at t {t}");
    let freq = d.freq_ppq() as f64 * 1e-9;
    assert!((freq + 40.0).abs() < 2.0, "freq not learned (want ~-40): {freq}");
}

#[test]
fn a_slew_never_exceeds_the_ceiling() {
    let mut d = Discipline::new(DisciplineConfig {
        makestep_threshold: None,
        ..DisciplineConfig::default()
    });
    for offset in [1e3, -1e3, 5.0, 1e-3] {
        if let ClockCommand::Slew { drain_rate_ppq, .. } =
            d.on_estimate(ps(offset), None, sd(1e-6)).command
        {
            assert!(drain_rate_ppq <= 83_333_000_000_000);
        }
    }
}

#[test]
fn any_poll_interval_is_held() {
    for poll in [i8::MIN, -64, -31, 0, 61, 91, i8::MAX] {
        let mut d = Discipline::new(DisciplineConfig {
            makestep_threshold: None,
            min_poll: poll,
            max_poll: poll,
            iburst: false,
            freq_integral_gain_micro: 1000,
            ..DisciplineConfig::default()
        });
        for _ in 0..20 {
            let plan = d.on_estimate(ps(0.5), None, sd(1e-6));
            assert_eq!(plan.next_poll_log2, poll);
            match plan.command {
                ClockCommand::Slew { drain_rate_ppq, .. } => {
                    if poll < -30 {
                        assert_eq!(drain_rate_ppq, 83_333_000_000_000);
                    }
                    if poll > 90 {
                        assert_eq!(drain_rate_ppq, 0);
                    }
                }
                other => panic!("stepped: {other:?}"),
            }
        }
    }
}
