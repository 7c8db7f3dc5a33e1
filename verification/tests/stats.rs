use chrono::{Datelike, NaiveDate};
use tokenbar::payload::Contribution;
use tokenbar::stats::{active_dates, fraction_label, streak_label, streaks};

fn d(s: &str) -> i32 {
    NaiveDate::parse_from_str(s, "%Y-%m-%d").unwrap().num_days_from_ce()
}

fn day(date: Option<&str>, tokens: Option<i64>) -> Contribution {
    Contribution {
        date: date.map(|s| s.to_string()),
        tokens,
        messages: None,
        cost_label: "$0.00".to_string(),
    }
}

#[test]
fn streaks_finds_current_and_longest() {
    // A 3-day run, a gap, then a 2-day run ending most-recently.
    let dates = [
        d("2026-06-01"),
        d("2026-06-02"),
        d("2026-06-03"),
        d("2026-06-10"),
        d("2026-06-11"),
    ];
    assert_eq!(streaks(&dates), (2, 3));
}

#[test]
fn streaks_handles_single_and_empty() {
    assert_eq!(streaks(&[]), (0, 0));
    assert_eq!(streaks(&[d("2026-06-01")]), (1, 1));
}

#[test]
fn streaks_span_month_and_year_ends() {
    let dates = [d("2025-12-30"), d("2025-12-31"), d("2026-01-01"), d("2026-02-28"), d("2026-03-01")];
    assert_eq!(streaks(&dates), (2, 3));
    // Current streak never exceeds the longest.
    let gaps = [d("2026-01-01"), d("2026-01-03"), d("2026-01-05")];
    assert_eq!(streaks(&gaps), (1, 1));
}

#[test]
fn active_dates_are_sorted_unique_and_skip_idle_days() {
    let cs = vec![
        day(Some("2026-06-03"), Some(10)),
        day(Some("2026-06-01"), Some(5)),
        day(Some("2026-06-03"), Some(7)),
        day(Some("2026-06-02"), Some(0)),
        day(Some("2026-06-04"), None),
        day(Some("not a date"), Some(9)),
        day(None, Some(9)),
        day(Some("2026-06-05"), Some(-3)),
        day(Some("2026-5-7"), Some(1)),
    ];
    let got = active_dates(&cs);
    let mut want = vec![d("2026-06-01"), d("2026-06-03"), d("2026-05-07")];
    want.sort_unstable();
    assert_eq!(got, want);
    assert!(active_dates(&Vec::new()).is_empty());
}

#[test]
fn streak_and_fraction_labels() {
    assert_eq!(streak_label(1), "1 day");
    assert_eq!(streak_label(0), "0 days");
    assert_eq!(streak_label(12), "12 days");
    assert_eq!(streak_label(-2), "-2 days");
    assert_eq!(fraction_label(12, 365), "12 / 365");
    assert_eq!(fraction_label(-1, 0), "-1 / 0");
    assert_eq!(fraction_label(i64::MIN, i64::MAX), format!("{} / {}", i64::MIN, i64::MAX));
}
