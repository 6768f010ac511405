use castlog::interval::{merge_intervals, merge_points, Interval};
use castlog::session::{coalesce_intervals, SessionInterval, DEFAULT_VIEW_GAP_SECONDS};

fn itv(start: i64, end: i64) -> Interval {
    Interval { start, end }
}

#[test]
fn merge_pulses_scenario() {
    let pts = vec![0i64, 5, 9, 40];
    let r = merge_points(&pts, 10);
    assert_eq!(r, vec![itv(0, 9), itv(40, 40)]);
}

#[test]
fn merge_pulses_empty() {
    let pts: Vec<i64> = vec![];
    let r = merge_points(&pts, 10);
    assert!(r.is_empty());
}

#[test]
fn merge_pulses_single() {
    let r = merge_points(&vec![7i64], 0);
    assert_eq!(r, vec![itv(7, 7)]);
}

#[test]
fn merge_pulses_zero_gap() {
    let r = merge_points(&vec![5i64, 5, 6], 0);
    assert_eq!(r, vec![itv(5, 5), itv(6, 6)]);
}

#[test]
fn merge_pulses_all_apart() {
    let r = merge_points(&vec![0i64, 100, 200], 10);
    assert_eq!(r, vec![itv(0, 0), itv(100, 100), itv(200, 200)]);
}

#[test]
fn merge_idempotent_concrete() {
    let pts = vec![0i64, 5, 9, 40, 41, 99];
    let once = merge_points(&pts, 10);
    let twice = merge_intervals(&once, 10);
    assert_eq!(once, twice);
}

#[test]
fn merge_composes_with_larger_gap() {
    let pts = vec![0i64, 5, 9, 40];
    let first = merge_points(&pts, 5);
    assert_eq!(first, vec![itv(0, 9), itv(40, 40)]);
    let second = merge_intervals(&first, 31);
    let direct = merge_points(&pts, 31);
    assert_eq!(second, direct);
    assert_eq!(second, vec![itv(0, 40)]);
}

#[test]
fn merge_intervals_nested() {
    let itvs = vec![itv(0, 50), itv(10, 20), itv(60, 70)];
    let r = merge_intervals(&itvs, 5);
    assert_eq!(r, vec![itv(0, 50), itv(60, 70)]);
}

#[test]
fn coalesce_keeps_sessions_apart() {
    let rows = vec![
        SessionInterval { session: 1, start: 0, end: 9 },
        SessionInterval { session: 1, start: 40, end: 45 },
        SessionInterval { session: 2, start: 15, end: 20 },
    ];
    let r = coalesce_intervals(&rows, DEFAULT_VIEW_GAP_SECONDS);
    assert_eq!(
        r,
        vec![
            SessionInterval { session: 1, start: 0, end: 9 },
            SessionInterval { session: 2, start: 15, end: 20 },
            SessionInterval { session: 1, start: 40, end: 45 },
        ]
    );
}

#[test]
fn coalesce_merges_within_session() {
    let rows = vec![
        SessionInterval { session: 1, start: 0, end: 9 },
        SessionInterval { session: 1, start: 20, end: 25 },
        SessionInterval { session: 1, start: 100, end: 110 },
    ];
    let r = coalesce_intervals(&rows, 30);
    assert_eq!(
        r,
        vec![
            SessionInterval { session: 1, start: 0, end: 25 },
            SessionInterval { session: 1, start: 100, end: 110 },
        ]
    );
}

#[test]
fn coalesce_empty() {
    let rows: Vec<SessionInterval> = vec![];
    assert!(coalesce_intervals(&rows, 30).is_empty());
}
