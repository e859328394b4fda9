use bikebalance::activity::{ActivityKind, ActivityRecord, Distance, Instant, MAX_MICROMETRES};
use bikebalance::frame::{recent_summary, summary, to_dataframe, Row};

const DAY: i64 = 86_400;

/// A record whose distance is given in the unit of the record, the micrometre.
fn record(activity: ActivityKind, distance: u64, start: i64, end: i64) -> ActivityRecord {
    ActivityRecord {
        start: Instant { secs: start, nanos: 0, offset: 0 },
        end: Instant { secs: end, nanos: 0, offset: 0 },
        activity,
        distance: Distance::from_micrometres(distance).unwrap(),
    }
}

/// Driving 100 on day 18779, cycling 30 on day 18780, driving 20 on day 18781.
fn three() -> Vec<ActivityRecord> {
    vec![
        record(ActivityKind::Driving, 100, 1622541600, 1622545200),
        record(ActivityKind::Cycling, 30, 1622628000, 1622631600),
        record(ActivityKind::Driving, 20, 1622714400, 1622718000),
    ]
}

fn noon(day: i64) -> Instant {
    Instant { secs: day * DAY + DAY / 2, nanos: 0, offset: 0 }
}

fn debts(records: &Vec<ActivityRecord>) -> Vec<i128> {
    let df = to_dataframe(records);
    (0..df.len()).map(|i| df.row(i).unwrap().debt).collect()
}

#[test]
fn debt_runs_along_the_rows() {
    assert_eq!(debts(&three()), vec![100, 70, 90]);
}

#[test]
fn debt_goes_below_zero() {
    let records = vec![
        record(ActivityKind::Cycling, 40, 1, 2),
        record(ActivityKind::Driving, 15, 3, 4),
        record(ActivityKind::Cycling, 0, 5, 6),
        record(ActivityKind::Cycling, 5, 7, 8),
    ];
    assert_eq!(debts(&records), vec![-40, -25, -25, -30]);
}

#[test]
fn debt_depends_on_the_order_of_the_rows() {
    let mut records = three();
    records.swap(0, 1);
    assert_eq!(debts(&records), vec![-30, 70, 90]);
}

#[test]
fn debt_holds_the_largest_distances() {
    let records = vec![
        record(ActivityKind::Driving, MAX_MICROMETRES, 1, 2),
        record(ActivityKind::Driving, MAX_MICROMETRES, 3, 4),
        record(ActivityKind::Cycling, MAX_MICROMETRES, 5, 6),
        record(ActivityKind::Cycling, MAX_MICROMETRES, 7, 8),
        record(ActivityKind::Cycling, MAX_MICROMETRES, 9, 10),
    ];
    let max = MAX_MICROMETRES as i128;
    assert_eq!(debts(&records), vec![max, 2 * max, max, 0, -max]);
    let s = summary(&to_dataframe(&records));
    assert_eq!(s.get(ActivityKind::Driving), Some(2 * MAX_MICROMETRES as u128));
    assert_eq!(s.get(ActivityKind::Cycling), Some(3 * MAX_MICROMETRES as u128));
    assert_eq!(s.debt(), -max);
}

#[test]
fn fractions_of_a_metre_add_up_exactly() {
    let records = vec![
        record(ActivityKind::Driving, 12_345_600_000, 1, 2),
        record(ActivityKind::Cycling, 500_000, 3, 4),
        record(ActivityKind::Driving, 400_000, 5, 6),
        record(ActivityKind::Cycling, 1, 7, 8),
    ];
    assert_eq!(debts(&records), vec![12_345_600_000, 12_345_100_000, 12_345_500_000, 12_345_499_999]);
    let s = summary(&to_dataframe(&records));
    assert_eq!(s.get(ActivityKind::Driving), Some(12_346_000_000));
    assert_eq!(s.get(ActivityKind::Cycling), Some(500_001));
    assert_eq!(s.debt(), 12_345_499_999);
}

#[test]
fn rows_hold_the_records() {
    let records = three();
    let df = to_dataframe(&records);
    assert_eq!(df.len(), 3);
    assert_eq!(
        df.row(1),
        Some(Row {
            start: records[1].start,
            end: records[1].end,
            distance: Distance::from_micrometres(30).unwrap(),
            activity: ActivityKind::Cycling,
            debt: 70,
        })
    );
    assert_eq!(df.row(0).unwrap().start, records[0].start);
    assert_eq!(df.row(2).unwrap().end, records[2].end);
    assert_eq!(df.row(3), None);
    assert_eq!(df.row(usize::MAX), None);
    let empty = to_dataframe(&Vec::new());
    assert_eq!(empty.len(), 0);
    assert_eq!(empty.row(0), None);
}

#[test]
fn full_summary_adds_up_each_kind() {
    let s = summary(&to_dataframe(&three()));
    assert_eq!(s.get(ActivityKind::Driving), Some(120));
    assert_eq!(s.get(ActivityKind::Cycling), Some(30));
    assert_eq!(s.total(ActivityKind::Driving), 120);
    assert_eq!(s.total(ActivityKind::Cycling), 30);
    assert_eq!(s.debt(), 90);
    assert!(!s.is_empty());
}

#[test]
fn a_kind_without_rows_has_no_entry() {
    let only_driving = vec![record(ActivityKind::Driving, 5, 1, 2), record(ActivityKind::Driving, 0, 3, 4)];
    let s = summary(&to_dataframe(&only_driving));
    assert_eq!(s.get(ActivityKind::Driving), Some(5));
    assert_eq!(s.get(ActivityKind::Cycling), None);
    assert_eq!(s.total(ActivityKind::Cycling), 0);
    assert_eq!(s.debt(), 5);
    let only_cycling = vec![record(ActivityKind::Cycling, 0, 1, 2)];
    let s = summary(&to_dataframe(&only_cycling));
    assert_eq!(s.get(ActivityKind::Cycling), Some(0));
    assert_eq!(s.get(ActivityKind::Driving), None);
    assert_eq!(s.debt(), 0);
    assert!(!s.is_empty());
}

#[test]
fn summary_of_no_rows_is_empty() {
    let s = summary(&to_dataframe(&Vec::new()));
    assert!(s.is_empty());
    assert_eq!(s.get(ActivityKind::Driving), None);
    assert_eq!(s.get(ActivityKind::Cycling), None);
    assert_eq!(s.total(ActivityKind::Driving), 0);
    assert_eq!(s.debt(), 0);
}

#[test]
fn window_that_leaves_out_all_rows_is_empty() {
    let df = to_dataframe(&three());
    // Today is day 18788: one week back is day 18781, on which the last row ends.
    let s = recent_summary(&df, 1, &noon(18788));
    assert!(s.is_empty());
    assert_eq!(s.get(ActivityKind::Driving), None);
    assert_eq!(s.get(ActivityKind::Cycling), None);
    assert_eq!(s.total(ActivityKind::Driving), 0);
    assert_eq!(s.total(ActivityKind::Cycling), 0);
    assert!(recent_summary(&df, 1, &noon(30000)).is_empty());
    assert!(recent_summary(&df, 0, &noon(18781)).is_empty());
}

#[test]
fn window_with_the_last_row_only() {
    let df = to_dataframe(&three());
    // Today is day 18787: the cutoff is day 18780, and only the last row ends after it.
    let s = recent_summary(&df, 1, &noon(18787));
    assert_eq!(s.get(ActivityKind::Driving), Some(20));
    assert_eq!(s.get(ActivityKind::Cycling), None);
    assert_eq!(s.debt(), 20);
    assert!(!s.is_empty());
}

#[test]
fn window_with_all_rows_is_the_full_summary() {
    let df = to_dataframe(&three());
    assert_eq!(recent_summary(&df, 1, &noon(18785)), summary(&df));
    assert_eq!(recent_summary(&df, 52, &noon(18781)), summary(&df));
    let s = recent_summary(&df, 1, &noon(18786));
    assert_eq!(s.get(ActivityKind::Driving), Some(20));
    assert_eq!(s.get(ActivityKind::Cycling), Some(30));
}

#[test]
fn window_counts_weeks_of_seven_days() {
    let df = to_dataframe(&three());
    let s = recent_summary(&df, 3, &noon(18779 + 21));
    assert_eq!(s.get(ActivityKind::Driving), Some(20));
    assert_eq!(s.get(ActivityKind::Cycling), Some(30));
    let s = recent_summary(&df, 3, &noon(18779 + 20));
    assert_eq!(s.get(ActivityKind::Driving), Some(120));
    // A window that reaches into the days to come holds nothing yet.
    assert!(recent_summary(&df, -1, &noon(18780)).is_empty());
    assert_eq!(recent_summary(&df, i64::MAX, &noon(18790)), summary(&df));
    assert!(recent_summary(&df, i64::MIN, &noon(18790)).is_empty());
}

#[test]
fn window_compares_days_and_not_times() {
    // One row ends a second before midnight of day 18700, the other at midnight.
    let records = vec![
        record(ActivityKind::Driving, 1, 1615700000, 1615766399),
        record(ActivityKind::Cycling, 2, 1615700000, 1615766400),
    ];
    let df = to_dataframe(&records);
    let early = Instant { secs: 18707 * DAY, nanos: 0, offset: 0 };
    let late = Instant { secs: 18707 * DAY + DAY - 1, nanos: 999_999_999, offset: 0 };
    for now in [early, late] {
        let s = recent_summary(&df, 1, &now);
        assert_eq!(s.get(ActivityKind::Driving), None);
        assert_eq!(s.get(ActivityKind::Cycling), Some(2));
    }
    let s = recent_summary(&df, 1, &Instant { secs: 18707 * DAY - 1, nanos: 0, offset: 0 });
    assert_eq!(s.get(ActivityKind::Driving), Some(1));
    assert_eq!(s.get(ActivityKind::Cycling), Some(2));
}

#[test]
fn window_reads_each_day_under_the_offset_of_its_instant() {
    let end = Instant { secs: 1615766399, nanos: 0, offset: 0 };
    let mut r = record(ActivityKind::Driving, 9, 1615700000, 0);
    r.end = end;
    let now = noon(18707);
    assert!(recent_summary(&to_dataframe(&vec![r]), 1, &now).is_empty());
    r.end = end.with_offset(1);
    assert_eq!(recent_summary(&to_dataframe(&vec![r]), 1, &now).get(ActivityKind::Driving), Some(9));
    r.end = end;
    let now_west = now.with_offset(-DAY as i32 / 2 - 1);
    assert_eq!(recent_summary(&to_dataframe(&vec![r]), 1, &now_west).get(ActivityKind::Driving), Some(9));
}
