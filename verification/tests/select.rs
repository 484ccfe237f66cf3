use rusty_time::select::{select, SourceEstimate};

const MS: i64 = 1_000_000;

fn src(id: usize, offset: f64, rd: f64) -> SourceEstimate {
    SourceEstimate {
        id,
        offset: (offset * 1e9).round() as i64,
        root_distance: (rd * 1e9).round() as i64,
        stratum: 2,
    }
}

#[test]
fn falseticker_is_excluded() {
    let sources = [
        src(0, 0.001, 0.005),
        src(1, 0.002, 0.005),
        src(2, 0.0015, 0.005),
        src(3, 0.500, 0.005),
    ];
    let sel = select(&sources);
    assert_eq!(sel.truechimers.len(), 3);
    assert!(!sel.truechimers.contains(&3));
    let o = sel.offset.expect("offset") as f64 * 1e-9;
    assert!(o > 0.0005 && o < 0.0035, "combined {o}");
}

#[test]
fn all_disjoint_yields_majority_failure() {
    let sources = [
        src(0, 0.0, 0.001),
        src(1, 1.0, 0.001),
        src(2, 2.0, 0.001),
        src(3, 3.0, 0.001),
    ];
    let sel = select(&sources);
    assert!(sel.offset.is_none() || sel.truechimers.len() <= 2);
}

#[test]
fn single_source_is_used() {
    let sel = select(&[src(0, 0.010, 0.002)]);
    assert_eq!(sel.truechimers, vec![0]);
    assert!((sel.offset.expect("offset") as f64 * 1e-9 - 0.010).abs() < 1e-12);
}

#[test]
fn empty_input_is_empty_output() {
    let sel = select(&[]);
    assert!(sel.truechimers.is_empty());
    assert!(sel.offset.is_none());
    assert!(sel.interval.is_none());
}

#[test]
fn the_best_survivor_comes_first() {
    let mut sources = [src(7, 0.0, 0.004), src(8, 0.0, 0.002), src(9, 0.0, 0.003)];
    assert_eq!(select(&sources).truechimers, vec![8, 9, 7]);
    sources[0].stratum = 1;
    assert_eq!(select(&sources).truechimers, vec![7, 8, 9]);
}

#[test]
fn the_combination_weighs_by_distance() {
    // Weights one and one half: (0 + 3/2) / (3/2) = 1 ms.
    let sources = [src(0, 0.0, 0.010), src(1, 0.003, 0.020)];
    let sel = select(&sources);
    assert_eq!(sel.offset, Some(MS));
    // The agreement is where the two intervals overlap.
    assert_eq!(sel.interval, Some((-10 * MS as i128, 10 * MS as i128)));
}

#[test]
fn a_distance_of_nothing_still_has_room() {
    let sel = select(&[src(0, 0.0, 0.0), src(1, 0.0, 0.0)]);
    assert_eq!(sel.truechimers, vec![0, 1]);
    assert_eq!(sel.offset, Some(0));
}

#[test]
fn intervals_that_touch_share_a_point_in_either_order() {
    let a = src(0, 0.5, 0.5);
    let b = src(1, 1.5, 0.5);
    let sel = select(&[a, b]);
    assert_eq!(sel.truechimers, vec![0, 1]);
    assert_eq!(sel.offset, Some(1_000_000_000));
    assert_eq!(sel.interval, Some((1_000_000_000, 1_000_000_000)));
    let back = select(&[b, a]);
    assert_eq!(back.truechimers, vec![1, 0]);
    assert_eq!(back.offset, Some(1_000_000_000));
    assert_eq!(back.interval, sel.interval);
}

#[test]
fn a_chain_of_overlaps_is_no_clique() {
    // [0, 2], [1, 5], [4, 6]: the middle one meets both ends, which never meet.
    let sources = [src(0, 1.0, 1.0), src(1, 3.0, 2.0), src(2, 5.0, 1.0)];
    let sel = select(&sources);
    assert_eq!(sel.truechimers, vec![0, 1]);
    assert_eq!(sel.interval, Some((1_000_000_000, 2_000_000_000)));
}

#[test]
fn half_of_the_sources_is_no_majority() {
    let sources = [src(0, 0.0, 0.1), src(1, 0.0, 0.1), src(2, 5.0, 0.1), src(3, 9.0, 0.1)];
    let sel = select(&sources);
    assert!(sel.truechimers.is_empty());
    assert_eq!(sel.offset, None);
    assert_eq!(sel.interval, None);
}

#[test]
fn a_wide_survivor_still_pulls_its_share() {
    // 0 ns within 27 ns, 59 s within 60 s: 59e9 * 27 / (60e9 + 27) = 26.55 ns.
    let narrow = SourceEstimate { id: 0, offset: 0, root_distance: 27, stratum: 2 };
    let wide = SourceEstimate {
        id: 1,
        offset: 59_000_000_000,
        root_distance: 60_000_000_000,
        stratum: 2,
    };
    assert_eq!(select(&[narrow, wide]).offset, Some(26));
    // 0 s within 0.1 s, 1e9 s within 1e9 s: a tenth of a second.
    let far = [src(0, 0.0, 0.1), src(1, 1e9, 1e9)];
    let sel = select(&far);
    assert_eq!(sel.truechimers, vec![0, 1]);
    assert_eq!(sel.offset, Some(99_999_999));
}

#[test]
fn offsets_below_zero_combine_alike() {
    let up = [src(0, 0.0, 0.010), src(1, 0.003, 0.020), src(2, 0.001, 0.007)];
    let down = [src(0, 0.0, 0.010), src(1, -0.003, 0.020), src(2, -0.001, 0.007)];
    let o = select(&up).offset.expect("offset");
    assert_eq!(select(&down).offset, Some(-o));
    // (3/20 + 1/7) / (1/10 + 1/20 + 1/7) = 1 ms.
    assert_eq!(o, MS);
    let ends = [
        SourceEstimate { id: 0, offset: i64::MIN, root_distance: i64::MAX, stratum: 1 },
        SourceEstimate { id: 1, offset: i64::MIN, root_distance: 1, stratum: 1 },
    ];
    assert_eq!(select(&ends).offset, Some(i64::MIN));
}
