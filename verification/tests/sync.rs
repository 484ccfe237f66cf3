use rusty_time::client::{ChangeVerdict, MaxChange};
use rusty_time::discipline::{ClockCommand, DisciplineConfig};
use rusty_time::exchange::{selected_index, SourceStatus};
use rusty_time::filter::Sample;
use rusty_time::regression::RegressConfig;
use rusty_time::sync_loop::{
    interval_ns, Decision, Next, SyncLoop, MAX_PAUSE_NS, MAX_REFUSALS,
};

const S: u64 = 1_000_000_000;

fn slewing() -> DisciplineConfig {
    DisciplineConfig { iburst: false, makestep_threshold: None, ..DisciplineConfig::default() }
}

fn sample(t: u64, offset_ms: i128) -> Sample {
    Sample { t, offset: offset_ms * 1_000_000_000, delay: 200_000_000, dispersion: 0 }
}

fn with(sources: usize) -> SyncLoop {
    SyncLoop::new(slewing(), RegressConfig::default(), None, sources, 0)
}

#[test]
fn a_lone_source_drives_once_it_has_an_estimate() {
    let mut l = with(1);
    assert_eq!(l.driving(), None);
    assert!(l.is_due(0, 0));
    assert_eq!(l.pause(0), 0);
    let step = l.on_sample(0, S, sample(S, 10), 2, 5_000_000).expect("a plan");
    assert_eq!(l.driving(), Some(0));
    assert_eq!(l.sources[0].status.offset, 10_000_000);
    assert_eq!(l.sources[0].exchanges, 1);
    assert_eq!(l.sources[0].due, S + 64 * S);
    match l.decide(&step) {
        Decision::Apply { command } => assert_eq!(command, step.plan.command),
        other => panic!("expected a command, got {other:?}"),
    }
    assert_eq!(l.applied(true), Next::Continue);
    assert_eq!(l.exit_code(), 0);
}

#[test]
fn a_dry_run_applies_nothing() {
    let mut l = with(1);
    assert_eq!(l.exit_code(), 1);
    l.dry_run = true;
    let step = l.on_sample(0, S, sample(S, 10), 2, 5_000_000).expect("a plan");
    assert_eq!(l.decide(&step), Decision::Hold);
    assert_eq!(l.exit_code(), 0);
    assert!(!l.controller.revert_last_plan());
}

#[test]
fn the_tenth_refusal_in_a_row_ends_the_process() {
    let mut l = with(1);
    for i in 1..=MAX_REFUSALS {
        let t = i as u64 * 64 * S;
        let step = l.on_sample(0, t, sample(t, 10), 2, 5_000_000).expect("a plan");
        assert!(matches!(l.decide(&step), Decision::Apply { .. }));
        let next = l.applied(false);
        assert_eq!(next == Next::GiveUp, i == MAX_REFUSALS, "refusal {i}");
        assert_eq!(l.controller.drain_ppq(), 0, "a refused drain was booked");
    }
    assert_eq!(l.exit_code(), 1);
}

#[test]
fn a_success_forgives_earlier_refusals() {
    let mut l = with(1);
    for i in 1..=30u64 {
        let t = i * 64 * S;
        let step = l.on_sample(0, t, sample(t, 1), 2, 5_000_000).expect("a plan");
        let _ = l.decide(&step);
        assert_eq!(l.applied(i % 5 == 0), Next::Continue);
    }
    l.drain_refused();
    assert_eq!(l.refused_in_a_row, 1);
}

#[test]
fn a_source_that_asks_for_too_much_is_given_up_on() {
    let guard = MaxChange { offset: 1_000_000_000, start: 0, ignore: 0 };
    let mut l = SyncLoop::new(slewing(), RegressConfig::default(), Some(guard), 1, 0);
    let step = l.on_sample(0, S, sample(S, 10_000), 2, 5_000_000).expect("a plan");
    assert_eq!(step.verdict, ChangeVerdict::GiveUp);
    assert_eq!(l.decide(&step), Decision::GiveUp);
}

#[test]
fn the_loop_wakes_for_the_end_of_a_drain() {
    let mut l = with(1);
    let step = l.on_sample(0, S, sample(S, 10), 2, 5_000_000).expect("a plan");
    let _ = l.decide(&step);
    let _ = l.applied(true);
    let ends = l.controller.drain_completes_at().expect("a drain") as u64;
    assert_eq!(l.retire_drain(ends - 1), None);
    assert!(l.pause(ends - 1000) <= 1000);
    match l.retire_drain(ends) {
        Some(ClockCommand::Slew { drain_rate_ppq, .. }) => assert_eq!(drain_rate_ppq, 0),
        other => panic!("expected the drain to end, got {other:?}"),
    }
    assert_eq!(l.drains_retired, 1);
    assert_eq!(l.controller.drain_ppq(), 0);
}

#[test]
fn drains_can_be_left_running() {
    let mut l = with(1);
    l.stop_drains = false;
    let step = l.on_sample(0, S, sample(S, 10), 2, 5_000_000).expect("a plan");
    let _ = l.decide(&step);
    let _ = l.applied(true);
    let ends = l.controller.drain_completes_at().expect("a drain") as u64;
    assert_eq!(l.retire_drain(ends), None);
    assert_ne!(l.controller.drain_ppq(), 0);
}

#[test]
fn a_lost_exchange_is_tried_again_later() {
    let config = DisciplineConfig { min_poll: 4, ..DisciplineConfig::default() };
    let mut l = SyncLoop::new(config, RegressConfig::default(), None, 1, 0);
    l.lost(0, 10 * S);
    assert_eq!(l.sources[0].lost, 1);
    assert_eq!(l.sources[0].due, 12 * S);
    assert!(!l.is_due(0, 11 * S));
    assert_eq!(l.pause(11 * S), MAX_PAUSE_NS);
    assert_eq!(l.pause(12 * S - 7), 7);
}

#[test]
fn a_run_ends_when_its_time_is_over() {
    let mut l = SyncLoop::new(slewing(), RegressConfig::default(), None, 1, 100 * S);
    assert!(!l.is_over(u64::MAX));
    l.run_ns = 5 * S;
    assert!(!l.is_over(105 * S - 1));
    assert!(l.is_over(105 * S));
}

#[test]
fn a_liar_among_three_never_gets_to_the_clock() {
    // The third server is five seconds wrong, and comes last in the first round.
    let mut l = with(3);
    let offsets = [2, 3, 5_000];
    let mut steered = Vec::new();
    for round in 1..=20u64 {
        for (index, offset) in offsets.iter().enumerate() {
            let t = round * 64 * S + index as u64;
            let before = l.controller.books;
            match l.on_sample(index, t, sample(t, *offset), 2, 5_000_000) {
                Some(step) => {
                    steered.push(index);
                    let _ = l.decide(&step);
                    let _ = l.applied(true);
                }
                None => {
                    // Measured, and nothing else.
                    assert_eq!(l.controller.books.freq_cmd_ppq, before.freq_cmd_ppq);
                    assert_eq!(l.controller.books.drain_ppq, before.drain_ppq);
                }
            }
        }
        assert_ne!(l.driving(), Some(2), "round {round}");
    }
    assert!(!steered.is_empty());
    assert!(!steered.contains(&2), "the liar steered the clock");
    assert_eq!(l.controller.samples_from(2), 20);
}

#[test]
fn intervals_are_powers_of_two() {
    assert_eq!(interval_ns(0), S);
    assert_eq!(interval_ns(6), 64 * S);
    assert_eq!(interval_ns(-2), S / 4);
    assert_eq!(interval_ns(34), S << 34);
    assert_eq!(interval_ns(35), u64::MAX);
    assert_eq!(interval_ns(-128), 0);
}

#[test]
fn the_majority_picks_the_source_that_drives() {
    let status = |offset: i64, stratum: u8| SourceStatus {
        has_estimate: true,
        offset,
        root_distance: 5_000_000,
        stratum,
    };
    let liar = status(500_000_000, 1);
    assert_eq!(selected_index(&[liar, status(1_000_000, 3), status(2_000_000, 2)]), Some(2));
    let silent = SourceStatus { has_estimate: false, ..liar };
    assert_eq!(selected_index(&[silent]), None);
    assert_eq!(selected_index(&[silent, liar]), Some(1));
    assert_eq!(selected_index(&[]), None);
}
