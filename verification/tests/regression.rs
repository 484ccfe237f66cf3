use rusty_time::fading::{faded, ONE};
use rusty_time::filter::{Sample, SampleRegister};
use rusty_time::ranking::{middle, ranked};
use rusty_time::regression::{RegressConfig, RegressEstimate};
use rusty_time::wide::{quotient_up_to, root_of_quotient, Wide};

fn ns(s: f64) -> u64 {
    (s * 1e9).round() as u64
}

fn ps(s: f64) -> i128 {
    (s * 1e12).round() as i128
}

fn sample(t: f64, offset: f64, delay: f64) -> Sample {
    Sample { t: ns(t), offset: ps(offset), delay: ps(delay) as i64, dispersion: 0 }
}

fn reg_with(points: &[(f64, f64, f64)]) -> SampleRegister {
    let mut r = SampleRegister::new(64);
    for &(t, offset, delay) in points {
        r.push(sample(t, offset, delay));
    }
    r
}

fn regress(r: &SampleRegister, now: f64) -> Option<RegressEstimate> {
    r.regress(&RegressConfig::default(), ns(now))
}

fn seconds(ps: i128) -> f64 {
    ps as f64 * 1e-12
}

#[test]
fn exact_line_is_recovered() {
    let pts: Vec<(f64, f64, f64)> = (0..10)
        .map(|i| {
            let t = i as f64 * 16.0;
            (t, 1e-3 + 10e-6 * t, 0.0002)
        })
        .collect();
    let r = reg_with(&pts);
    let est = regress(&r, 144.0).expect("estimate");
    let freq = est.freq_ppq.expect("freq") as f64 * 1e-9;
    assert!((freq - 10.0).abs() < 1e-6, "freq {freq}");
    let expect = 1e-3 + 10e-6 * 144.0;
    let offset = seconds(est.offset);
    assert!((offset - expect).abs() < 1e-9, "offset {offset}");
    assert!((est.offset_sd as f64 * 1e-12) < 1e-9);
}

#[test]
fn outlier_is_trimmed() {
    let mut pts: Vec<(f64, f64, f64)> =
        (0..12).map(|i| (i as f64 * 16.0, 5e-4, 0.0002)).collect();
    pts[6].1 = 0.050;
    let r = reg_with(&pts);
    let est = regress(&r, 200.0).expect("estimate");
    assert_eq!(est.n_used, 11, "outlier not trimmed");
    let offset = seconds(est.offset);
    assert!((offset - 5e-4).abs() < 1e-4, "offset {offset} polluted by spike");
}

#[test]
fn high_delay_samples_are_downweighted() {
    let mut pts: Vec<(f64, f64, f64)> = (0..8).map(|i| (i as f64 * 16.0, 1e-3, 0.0002)).collect();
    for i in 8..12 {
        pts.push((i as f64 * 16.0, 8e-3, 0.0025));
    }
    let r = reg_with(&pts);
    let est = regress(&r, 200.0).expect("estimate");
    let offset = seconds(est.offset);
    assert!((offset - 1e-3).abs() < 2e-3, "offset {offset} dragged by congested tail");
}

#[test]
fn no_freq_before_enough_span() {
    let pts: Vec<(f64, f64, f64)> = (0..3).map(|i| (i as f64 * 2.0, 1e-3, 0.0002)).collect();
    let r = reg_with(&pts);
    let est = regress(&r, 6.0).expect("estimate");
    assert!(est.freq_ppq.is_none());
}

#[test]
fn slew_samples_keeps_the_fit_consistent() {
    let mut r = SampleRegister::new(64);
    for i in 0..6 {
        let t = i as f64 * 16.0;
        r.push(sample(t, 0.010 - 50e-6 * t, 0.0002));
    }
    r.slew_samples(ns(80.0), -50_000_000_000, ps(0.006));
    let est = regress(&r, 80.0).expect("estimate");
    assert!(seconds(est.offset).abs() < 1e-9, "offset {}", est.offset);
    let f = est.freq_ppq.expect("freq") as f64 * 1e-9;
    assert!(f.abs() < 1e-6, "slope {f} should be flat after correction");
}

#[test]
fn best_prefers_min_delay() {
    let r = reg_with(&[(0.0, 1e-3, 0.010), (1.0, 2e-3, 0.001), (2.0, 3e-3, 0.020)]);
    let b = r.best().expect("best");
    assert_eq!(b.offset, ps(2e-3));
}

#[test]
fn a_constant_offset_is_reported_exactly() {
    for c in [0.0, 1.25e-3, -7e-6] {
        let pts: Vec<(f64, f64, f64)> =
            (0..20).map(|i| (i as f64 * 7.0, c, 0.001 + 1e-5 * i as f64)).collect();
        let est = regress(&reg_with(&pts), 1000.0).expect("estimate");
        assert_eq!(est.offset, ps(c));
        assert_eq!(est.freq_ppq, Some(0));
        assert_eq!(est.offset_sd, 0);
        assert_eq!(est.n_used, 20);
        assert_eq!(est.span, ns(133.0));
    }
}

#[test]
fn fewer_than_three_samples_make_no_line() {
    assert!(regress(&reg_with(&[]), 1.0).is_none());
    assert!(regress(&reg_with(&[(0.0, 1.0, 0.1), (1.0, 1.0, 0.1)]), 2.0).is_none());
}

#[test]
fn a_new_regime_is_believed_over_a_stale_history() {
    // Ten congested samples say zero, then twelve clean ones ten milliseconds.
    let mut pts: Vec<(f64, f64, f64)> = (0..10).map(|i| (i as f64 * 16.0, 0.0, 0.02)).collect();
    for i in 10..22 {
        pts.push((i as f64 * 16.0, 0.010, 0.0002));
    }
    let est = regress(&reg_with(&pts), 22.0 * 16.0).expect("estimate");
    assert!(est.n_used < 22, "stale history was kept");
    assert!((seconds(est.offset) - 0.010).abs() < 1e-5, "offset {}", est.offset);
}

#[test]
fn a_far_clock_is_measured_without_overflow() {
    // A clock that starts in 1970, and a register that spans a year.
    let pts: Vec<(f64, f64, f64)> =
        (0..12).map(|i| (i as f64 * 2_628_000.0, 1.79e9, 0.1)).collect();
    let est = regress(&reg_with(&pts), 3.2e7).expect("estimate");
    assert_eq!(est.offset, ps(1.79e9));
    assert_eq!(est.freq_ppq, Some(0));
}

#[test]
fn the_weighting_can_be_set() {
    let mut config = RegressConfig::default();
    config.set_weight_floor_ratio(1);
    config.set_offset_weight_floor_ratio(0);
    config.set_slope_density_weighting(true);
    config.set_offset_weight_dispersion_k(150);
    assert_eq!((config.floor_ppm, config.offset_floor_ppm), (100, 100));
    let pts: Vec<(f64, f64, f64)> = (0..10)
        .map(|i| {
            let t = (i * i) as f64;
            (t, 1e-3 + 10e-6 * t, 0.0002)
        })
        .collect();
    let est = reg_with(&pts).regress(&config, ns(81.0)).expect("estimate");
    let freq = est.freq_ppq.expect("freq") as f64 * 1e-9;
    assert!((freq - 10.0).abs() < 1e-6, "freq {freq}");
    assert!((seconds(est.offset) - (1e-3 + 10e-6 * 81.0)).abs() < 1e-9);
}

#[test]
fn a_dense_burst_does_not_anchor_the_slope() {
    // Twenty noisy samples in one second, then a clean line.
    let mut pts: Vec<(f64, f64, f64)> =
        (0..20).map(|i| (i as f64 * 0.05, 1e-4 * (i % 2) as f64, 0.0002)).collect();
    for i in 1..12 {
        pts.push((i as f64 * 64.0, 0.0, 0.0002));
    }
    let r = reg_with(&pts);
    let plain = r.regress(&RegressConfig::default(), ns(704.0)).expect("estimate");
    let mut config = RegressConfig::default();
    config.set_slope_density_weighting(true);
    let dense = r.regress(&config, ns(704.0)).expect("estimate");
    let tilt = |e: &RegressEstimate| e.freq_ppq.expect("freq").abs();
    assert!(tilt(&dense) < tilt(&plain), "{} against {}", tilt(&dense), tilt(&plain));
}

#[test]
fn a_register_keeps_the_newest() {
    let mut r = SampleRegister::new(3);
    assert!(r.is_empty());
    for i in 0..7 {
        r.push(sample(i as f64, i as f64, 0.5 - 0.01 * i as f64));
    }
    assert_eq!(r.len(), 3);
    assert_eq!(r.get(0).t, ns(4.0));
    assert_eq!(r.get(2).t, ns(6.0));
    assert_eq!(r.min_delay(), Some(ps(0.44) as i64));
    r.clear();
    assert!(r.is_empty());
    assert_eq!(r.min_delay(), None);
    assert!(r.best().is_none());
}

#[test]
fn slewing_back_restores_every_offset() {
    let mut r = reg_with(&[(1.0, 0.25, 0.1), (9.0, -0.5, 0.1), (20.0, 3.0, 0.2)]);
    r.slew_samples(ns(10.0), 123_456_789_012, ps(0.125));
    assert_ne!(r.get(0).offset, ps(0.25));
    r.slew_samples(ns(10.0), -123_456_789_012, -ps(0.125));
    assert_eq!(r.get(0).offset, ps(0.25));
    assert_eq!(r.get(1).offset, ps(-0.5));
    assert_eq!(r.get(2).offset, ps(3.0));
}

#[test]
fn numbers_are_ranked_as_if_sorted() {
    let s = [5i128, -3, 5, 0, 9, -3];
    let mut sorted = s;
    sorted.sort();
    for (k, v) in sorted.iter().enumerate() {
        assert_eq!(ranked(&s, k), *v);
    }
    assert_eq!(middle(&s), 5);
    assert_eq!(middle(&[1, 2, 3]), 2);
}

#[test]
fn wide_numbers_add_multiply_and_divide() {
    let a = Wide::product(u128::MAX, u128::MAX);
    assert_eq!((a.high, a.low), (u128::MAX - 1, 1));
    let b = Wide::product(1 << 100, 3 << 90);
    assert_eq!((b.high, b.low), (3 << 62, 0));
    let c = Wide::new(u128::MAX).plus(Wide::new(1));
    assert_eq!((c.high, c.low), (1, 0));
    let d = c.minus(Wide::new(1));
    assert_eq!((d.high, d.low), (0, u128::MAX));
    assert!(d.at_most(c) && !c.at_most(d));
    assert_eq!(quotient_up_to(b, Wide::product(1 << 90, 1 << 70), 1 << 40), 3 << 30);
    assert_eq!(quotient_up_to(b, Wide::new(1), 12), 12);
    assert_eq!(root_of_quotient(Wide::new(1_000_000), 1), 1000);
    assert_eq!(root_of_quotient(Wide::new(999_999), 1), 999);
    assert_eq!(root_of_quotient(Wide::new(50), 2), 5);
    let e = Wide::new(7).times(1 << 127);
    assert_eq!((e.high, e.low), (3, 1 << 127));
}

#[test]
fn each_half_life_leaves_half() {
    let hour = 3_600_000_000_000u64;
    assert_eq!(faded(0, hour), ONE);
    assert_eq!(faded(hour, hour), ONE / 2);
    assert_eq!(faded(10 * hour, hour), ONE / 1024);
    assert_eq!(faded(41 * hour, hour), 0);
    // A quarter of a half-life leaves one over the fourth root of two.
    let quarter = faded(hour / 4, hour) as f64 / ONE as f64;
    assert!((quarter - 0.5f64.powf(0.25)).abs() < 1e-9, "{quarter}");
    for step in 1..200u64 {
        let age = step * hour / 37;
        let left = faded(age, hour) as f64 / ONE as f64;
        let exact = 0.5f64.powf(age as f64 / hour as f64);
        assert!((left - exact).abs() < 2e-5, "{left} {exact}");
    }
}

#[test]
fn an_old_sample_loses_its_say_in_the_offset() {
    // Ten minutes of samples about one value, then a minute about another.
    let points: Vec<(f64, f64, f64)> = (0..11)
        .map(|i| (60.0 * i as f64, if i < 6 { 0.0 } else { 1e-6 }, 0.02))
        .collect();
    let r = reg_with(&points);
    let mut config = RegressConfig::default();
    config.set_slope_density_weighting(false);
    let level = r.regress(&config, ns(600.0)).expect("estimate");
    config.set_offset_age_halflife(20_000_000_000);
    let fresh = r.regress(&config, ns(600.0)).expect("estimate");
    assert_eq!(level.freq_ppq, fresh.freq_ppq);
    assert_eq!(level.offset_sd, fresh.offset_sd);
    assert!((seconds(fresh.offset) - 1e-6).abs() < (seconds(level.offset) - 1e-6).abs());
}

#[test]
fn one_floor_for_both_takes_the_offset_from_the_line() {
    let r = reg_with(&[(0.0, 0.0, 0.02), (10.0, 1e-5, 0.03), (20.0, 2e-5, 0.02), (30.0, 3e-5, 0.025)]);
    let mut config = RegressConfig::default();
    config.set_weight_floor_ratio(125_000);
    config.set_offset_weight_floor_ratio(125_000);
    let est = r.regress(&config, ns(40.0)).expect("estimate");
    assert!((seconds(est.offset) - 4e-5).abs() < 1e-9);
}

#[test]
fn a_large_register_is_fitted_too() {
    let mut r = SampleRegister::new(400);
    for i in 0..300 {
        let t = i as f64 * 16.0;
        r.push(sample(t, 1e-3 + 10e-6 * t, 0.0002));
    }
    let est = regress(&r, 4784.0).expect("estimate");
    let freq = est.freq_ppq.expect("freq") as f64 * 1e-9;
    assert!((freq - 10.0).abs() < 1e-6, "freq {freq}");
    assert!((seconds(est.offset) - (1e-3 + 10e-6 * 4784.0)).abs() < 1e-9);
}

/// A register of samples at one time, so that the line is flat.
fn at_once(points: &[(i128, i64)]) -> SampleRegister {
    let mut r = SampleRegister::new(16);
    for &(offset, delay) in points {
        r.push(Sample { t: ns(10.0), offset, delay, dispersion: 0 });
    }
    r
}

#[test]
fn a_weight_is_the_inverse_square_to_the_last_bit() {
    // A floor of 1 ns and an excess of 998 ns: 2^40 / 999^2 = 1101713.9.
    let x: i128 = 1_000_000_000_000_000;
    let r = at_once(&[(0, 1000), (0, 1000), (x, 999_000)]);
    let est = regress(&r, 10.0).expect("estimate");
    let (full, least): (i128, i128) = (1 << 40, 1_101_713);
    assert_eq!(est.offset, x * least / (2 * full + least));
}

#[test]
fn old_samples_keep_their_proportions() {
    let r = at_once(&[(0, 1_000_000), (0, 1_000_000), (9_000_000, 2_000_000)]);
    let mut config = RegressConfig::default();
    config.set_offset_age_halflife(ns(1.0));
    let soon = r.regress(&config, ns(10.0)).expect("estimate");
    let late = r.regress(&config, ns(1000.0)).expect("estimate");
    assert_eq!(soon.offset, late.offset);
    assert!(soon.offset > 0 && soon.offset < 3_000_000, "{}", soon.offset);
}

#[test]
fn a_sample_that_stands_for_no_time_counts_for_nothing() {
    let mut r = SampleRegister::new(16);
    for (t, offset) in [(0.0, 0.005), (0.0, 0.007), (0.0, 0.001), (10.0, 0.001)] {
        r.push(sample(t, offset, 0.0002));
    }
    let mut config = RegressConfig::default();
    config.set_offset_weight_floor_ratio(config.floor_ppm);
    config.set_slope_density_weighting(true);
    let est = r.regress(&config, ns(10.0)).expect("estimate");
    assert_eq!(est.offset, ps(0.001));
    assert_eq!(est.freq_ppq, Some(0));
    assert_eq!(est.offset_sd, 0);
    assert_eq!(est.n_used, 4);
}
