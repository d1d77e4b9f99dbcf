//! Progress lines.
use shard_builder::progress::{short_duration, Figures, State, LOG_INTERVAL_NANOS};

const SECOND: u128 = 1_000_000_000;

fn state(label: &str, unit: &str, total: u64) -> State {
    State {
        label: label.to_string(),
        unit: unit.to_string(),
        total,
        done: 0,
        items: 0,
        started: 5 * SECOND,
        last_logged: 5 * SECOND,
    }
}

/// The figures of a state at a time.
fn figures(state: &State, now: u128) -> Figures {
    let elapsed = (now - state.started) as f64 / 1e9;
    let remaining = state.total.saturating_sub(state.done) as f64;
    Figures {
        percent: format!("{:.1}", 100.0 * state.done as f64 / state.total as f64),
        rate: format!("{:.0}", state.items as f64 / elapsed),
        remaining_secs: if state.done > 0 {
            (elapsed / state.done as f64 * remaining) as u64
        } else {
            0
        },
    }
}

fn line(state: &State, now: u128) -> String {
    state.line(now, &figures(state, now))
}

#[test]
fn durations_are_compact() {
    assert_eq!(short_duration(12), "12s");
    assert_eq!(short_duration(423), "7m3s");
    assert_eq!(short_duration(15120), "4h12m");
    assert_eq!(short_duration(0), "0s");
    assert_eq!(short_duration(59), "59s");
    assert_eq!(short_duration(60), "1m0s");
    assert_eq!(short_duration(3600), "1h0m");
}

#[test]
fn counts_units_and_items_separately() {
    let mut state = state("build", "segment", 3);
    assert!(!state.advance(100));
    assert!(!state.advance(250));
    assert_eq!(state.done, 2);
    assert_eq!(state.items, 350);

    let line = line(&state, 15 * SECOND);
    assert!(line.contains("2/3 segments"), "{line}");
    assert!(line.contains("66.7%"), "{line}");
    assert!(line.contains("350 points"), "{line}");
    assert!(line.contains("eta"), "an unfinished phase should project an eta: {line}");
    assert_eq!(
        line,
        "build: 2/3 segments (66.7%), 350 points, 35 points/s, elapsed 10s, eta 5s",
    );
}

#[test]
fn omits_an_eta_once_complete() {
    let mut state = state("scatter", "file", 2);
    assert!(!state.advance(5));
    assert!(state.advance(5), "the last unit");
    let line = line(&state, 6 * SECOND);
    assert!(!line.contains("eta"), "a finished phase has nothing to project: {line}");
    assert!(!state.ended_early());
}

#[test]
fn handles_an_empty_phase() {
    let state = state("scatter", "file", 0);
    assert!(line(&state, 5 * SECOND).contains("100.0%"));
}

#[test]
fn heartbeat_reports_while_a_unit_is_still_in_flight() {
    let state = state("build", "segment", 5);
    let line = line(&state, 35 * SECOND);
    assert!(line.contains("0/5 segments"), "{line}");
    assert!(line.contains("0.0%"), "{line}");
    assert!(!line.contains("eta"), "no eta before the first unit finishes: {line}");
    assert!(state.ended_early());
}

#[test]
fn a_line_is_due_once_per_interval() {
    let mut state = state("build", "segment", 5);
    let start = state.last_logged;
    assert!(!state.log_if_due(start + LOG_INTERVAL_NANOS - 1, false));
    assert_eq!(state.last_logged, start);
    assert!(state.log_if_due(start + LOG_INTERVAL_NANOS, false));
    assert_eq!(state.last_logged, start + LOG_INTERVAL_NANOS);
    assert!(!state.log_if_due(start + LOG_INTERVAL_NANOS + 1, false));
    assert!(state.log_if_due(start + LOG_INTERVAL_NANOS + 1, true), "unless it is asked for");
}
