use rusty_time::client::{ChangeVerdict, Estimate, MaxChange, MultiController, SyncController};
use rusty_time::discipline::{ClockCommand, DisciplineConfig};
use rusty_time::filter::Sample;

fn ns(s: f64) -> u64 {
    (s * 1e9).round() as u64
}

fn ps(s: f64) -> i128 {
    (s * 1e12).round() as i128
}

fn sample(t: f64, offset: f64) -> Sample {
    Sample { t: ns(t), offset: ps(offset), delay: ps(0.0002) as i64, dispersion: 0 }
}

fn ppm(ppq: i64) -> f64 {
    ppq as f64 * 1e-9
}

fn feed(c: &mut SyncController, n: usize, base: f64) {
    for i in 0..n {
        let t = 16.0 * (i as f64 + 1.0);
        let _ = c.on_sample(ns(t), sample(t, base - 20e-6 * t));
    }
}

fn slewing() -> DisciplineConfig {
    DisciplineConfig { iburst: false, makestep_threshold: None, ..DisciplineConfig::default() }
}

#[test]
fn a_refused_command_leaves_no_trace() {
    let cfg = DisciplineConfig::default();
    let mut applied = SyncController::new(cfg, None);
    let mut refused = SyncController::new(cfg, None);
    feed(&mut applied, 12, 0.010);
    feed(&mut refused, 12, 0.010);

    let t = 16.0 * 13.0;
    let one = sample(t, 0.010 - 20e-6 * t);
    let before_freq = refused.freq_ppq();
    let before_drain = refused.drain_ppq();

    let _ = applied.on_sample(ns(t), one);
    applied.confirm_last_plan();
    let _ = refused.on_sample(ns(t), one);
    assert!(refused.revert_last_plan(), "there was a plan to revert");
    assert_eq!(refused.freq_ppq(), before_freq, "the frequency command survived a refusal");
    assert_eq!(refused.drain_ppq(), before_drain, "the drain survived a refusal");

    let t2 = 16.0 * 14.0;
    let next = sample(t2, 0.010 - 20e-6 * t2);
    let a = applied.on_sample(ns(t2), next);
    let r = refused.on_sample(ns(t2), next);
    assert_ne!(
        a.applied_ppq, r.applied_ppq,
        "a reverted controller behaved identically to one that applied its command"
    );
}

#[test]
fn reverting_nothing_is_a_no_op() {
    let mut c = SyncController::new(DisciplineConfig::default(), None);
    assert!(!c.revert_last_plan(), "nothing has been planned yet");
    feed(&mut c, 6, 0.001);
    assert!(c.revert_last_plan());
    assert!(!c.revert_last_plan(), "a second revert must do nothing");
}

/// A clock that drifts and starts off, disciplined by perfect exchanges.
fn closed_loop(base_freq_ppm: f64, initial_err_s: f64, polls: usize) -> f64 {
    let mut controller = SyncController::new(slewing(), None);
    let mut err = initial_err_s;
    // Start late enough that a clock that is behind still has a positive time.
    let mut t = 1.0f64;
    for _ in 0..polls {
        let mono = t + err;
        let step = controller.on_sample(ns(mono), sample(mono, -err));
        let dt = 2f64.powi(step.plan.next_poll_log2 as i32);
        err += (base_freq_ppm + ppm(step.applied_ppq)) * 1e-6 * dt;
        t += dt;
    }
    err
}

#[test]
fn the_controller_converges_on_a_drifting_clock() {
    let residual = closed_loop(40.0, 0.030, 80);
    assert!(residual.abs() < 1e-4, "did not converge: {residual} s remaining");
}

#[test]
fn it_converges_from_either_direction() {
    for (drift, start) in [(40.0, 0.030), (-40.0, -0.030), (100.0, -0.050), (-15.0, 0.010)] {
        let residual = closed_loop(drift, start, 120);
        assert!(residual.abs() < 1e-3, "drift {drift} ppm from {start} s left {residual} s");
    }
}

#[test]
fn frequency_and_drain_stay_separate() {
    let mut controller = SyncController::new(slewing(), None);
    let step = controller.on_sample(0, sample(0.0, 0.001));
    assert!(controller.drain_ppq() != 0, "a non-zero offset should start a drain");
    assert_eq!(
        step.applied_ppq,
        controller.freq_ppq() + controller.drain_ppq(),
        "the applied total must be exactly the two parts"
    );
    assert_eq!(controller.applied_ppq(), step.applied_ppq);
}

#[test]
fn a_failed_exchange_retries_at_the_burst_spacing_not_the_poll_interval() {
    let controller = SyncController::new(
        DisciplineConfig { min_poll: 4, iburst: true, ..DisciplineConfig::default() },
        None,
    );
    let retry = 2f64.powi(controller.retry_interval_log2() as i32);
    assert!(retry <= 4.0, "a cold-start retry waited {retry} s; the burst spacing is the point");
}

#[test]
fn once_the_burst_is_spent_retries_use_the_poll_interval() {
    let mut controller = SyncController::new(
        DisciplineConfig {
            min_poll: 4,
            iburst: true,
            makestep_threshold: None,
            ..DisciplineConfig::default()
        },
        None,
    );
    for i in 0..8 {
        let t = i as f64 * 2.0;
        let _ = controller.on_sample(ns(t), sample(t, 1e-6));
    }
    let retry = 2f64.powi(controller.retry_interval_log2() as i32);
    assert!(retry >= 16.0, "after the burst, retries must back off to the poll interval");
}

#[test]
fn a_drain_ends_when_its_budget_is_spent() {
    let mut controller = SyncController::new(slewing(), None);
    let _ = controller.on_sample(0, sample(0.0, 0.010));
    let ends = controller.drain_completes_at().expect("a drain should be running");
    assert!(ends > 0, "drain has no completion time");
    let ends = ends as u64;
    assert!(controller.poll_drain(ends - 1_000).is_none());
    assert!(controller.applied_ppq() != 0);
    assert!(controller.poll_drain(ends).is_some());
    assert!(controller.poll_drain(ends + 1_000_000_000).is_none());
    assert_eq!(controller.drain_ppq(), 0, "a spent drain must stop slewing the clock");
}

#[test]
fn a_late_retirement_books_what_the_clock_actually_received() {
    let mut controller = SyncController::new(slewing(), None);
    let _ = controller.on_sample(0, sample(0.0, 0.010));
    let rate = ppm(controller.drain_ppq());
    let ends = controller.drain_completes_at().expect("a drain") as u64;
    let late = 0.5;
    let when = ends + ns(late);
    let _ = controller.poll_drain(when);
    let step = controller.on_sample(
        when,
        Sample { t: when, offset: 0, delay: ps(0.0002) as i64, dispersion: 0 },
    );
    let overrun = rate.abs() * 1e-6 * late;
    assert!(overrun > 1e-6, "test is vacuous unless the overrun is meaningful");
    let estimate = step.estimate.offset as f64 * 1e-12;
    assert!(
        estimate.abs() < 0.010,
        "late retirement lost correction the clock had already received: {estimate} s"
    );
}

#[test]
fn a_preloaded_frequency_is_the_starting_point() {
    let mut controller = SyncController::new(DisciplineConfig::default(), None);
    controller.preload_frequency(-12_500_000_000);
    assert!((ppm(controller.freq_ppq()) + 12.5).abs() < 1e-12);
    assert_eq!(controller.samples(), 0);
    assert_eq!(controller.poll_log2(), 6);
}

#[test]
fn an_unselected_source_steers_nothing() {
    let mut c = MultiController::new(slewing(), 2, None);
    let mine = c.observe(0, ns(1.0), sample(1.0, 0.010));
    let other = c.observe(1, ns(1.0), sample(1.0, 5.0));
    assert_eq!(mine.offset, ps(0.010));
    assert_eq!(other.offset, ps(5.0));
    assert_eq!(c.applied_ppq(), 0);
    let step = c.steer(mine, ns(1.0));
    assert!(matches!(step.plan.command, ClockCommand::Slew { .. }));
    // The correction lands on the one clock that both sources measure.
    assert_eq!((c.samples_from(0), c.samples_from(1), c.sources()), (1, 1, 2));
    assert_eq!(c.estimate(1, ns(1.0)).offset, ps(5.0));
}

#[test]
fn a_source_is_given_up_on_after_the_allowed_refusals() {
    let guard = MaxChange { offset: ps(1.0) as u128, start: 1, ignore: 2 };
    let mut c = SyncController::new(slewing(), Some(guard));
    // The first update may be as large as it likes.
    assert_eq!(c.on_sample(ns(1.0), sample(1.0, 3.0)).verdict, ChangeVerdict::Accepted);
    c.confirm_last_plan();
    let mut verdicts = Vec::new();
    for i in 2..6 {
        let t = i as f64;
        verdicts.push(c.on_sample(ns(t), sample(t, 30.0)).verdict);
    }
    assert_eq!(
        verdicts,
        vec![
            ChangeVerdict::Refused { seen: 1 },
            ChangeVerdict::Refused { seen: 2 },
            ChangeVerdict::GiveUp,
            ChangeVerdict::GiveUp,
        ]
    );
}

#[test]
fn a_refused_correction_repeats_what_the_clock_does() {
    let guard = MaxChange { offset: ps(1.0) as u128, start: 0, ignore: -1 };
    let mut c = SyncController::new(slewing(), Some(guard));
    c.preload_frequency(7_000);
    let step = c.on_sample(ns(1.0), sample(1.0, 2.0));
    assert_eq!(step.verdict, ChangeVerdict::Refused { seen: 1 });
    assert_eq!(
        step.plan.command,
        ClockCommand::Slew { freq_ppq: 7_000, drain_offset_ps: 0, drain_rate_ppq: 0 }
    );
    assert!(!c.revert_last_plan());
}

#[test]
fn a_refused_frequency_is_counted_once() {
    let mut c = MultiController::new(slewing(), 1, None);
    let est = Estimate { offset: 1_000, freq_ppq: Some(1_000_000), sd: 100_000, samples: 8 };
    let first = c.steer(est, ns(1.0));
    let freq = c.freq_ppq();
    assert_ne!(freq, 0);
    assert!(c.revert_last_plan());
    assert_eq!(c.freq_ppq(), 0);
    let again = c.steer(est, ns(1.0));
    assert_eq!(c.freq_ppq(), freq);
    assert_eq!(first, again);
}

#[test]
fn a_refusal_puts_the_loop_back() {
    let mut c = MultiController::new(DisciplineConfig::default(), 2, None);
    let est = c.observe(0, ns(1.0), sample(1.0, 0.010));
    let loop_before = c.discipline;
    let books_before = c.books;
    let other = c.estimate(1, ns(2.0));
    let own = c.estimate(0, ns(2.0));
    let _ = c.steer(est, ns(1.0));
    assert_ne!(c.discipline, loop_before);
    assert!(c.revert_last_plan());
    assert_eq!(c.discipline, loop_before);
    assert_eq!(c.books, books_before);
    assert_eq!(c.estimate(0, ns(2.0)), own);
    assert_eq!(c.estimate(1, ns(2.0)), other);
}

#[test]
fn a_seeded_frequency_is_kept_by_the_first_sample() {
    let mut c = SyncController::new(DisciplineConfig::default(), None);
    c.preload_frequency(-12_500_000_000);
    let _ = c.on_sample(0, sample(0.0, 0.0));
    assert_eq!(c.freq_ppq(), -12_500_000_000);
    // One beyond the cap reaches the loop as the cap.
    c.preload_frequency(900_000_000_000);
    assert_eq!(c.inner.discipline.freq_ppq, 500_000_000_000);
}

#[test]
fn measuring_does_not_move_the_end_of_a_drain() {
    let mut c = MultiController::new(slewing(), 2, None);
    let est = c.observe(0, ns(1.0), sample(1.0, 0.010));
    let _ = c.steer(est, ns(1.0));
    let ends = c.drain_completes_at().expect("a drain") as u64;
    let mid = ns(1.0) + (ends - ns(1.0)) * 2 / 5;
    let _ = c.observe(1, mid, sample(1.0, 0.010));
    let told = c.drain_completes_at().expect("a drain") as u64;
    let rate = c.drain_ppq().unsigned_abs();
    assert!(ends <= told && told <= ends + 1_000_000_000_000 / rate + 1, "{ends} {told}");
}
