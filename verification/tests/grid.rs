use chrono::{Datelike, NaiveDate};
use tokenbar::calendar::weekday_from_sunday;
use tokenbar::grid::week_grid;
use tokenbar::payload::Contribution;

fn day(date: &str, tokens: Option<i64>) -> Contribution {
    Contribution { date: Some(date.to_string()), tokens, messages: None, cost_label: String::new() }
}

#[test]
fn weekday_matches_chrono() {
    let mut date = NaiveDate::from_ymd_opt(1969, 12, 1).unwrap();
    for _ in 0..3000 {
        assert_eq!(
            weekday_from_sunday(date.num_days_from_ce()),
            date.weekday().num_days_from_sunday(),
            "{date}"
        );
        date = date.succ_opt().unwrap();
    }
    for d in [NaiveDate::MIN, NaiveDate::MAX, NaiveDate::from_ymd_opt(1, 1, 1).unwrap()] {
        assert_eq!(weekday_from_sunday(d.num_days_from_ce()), d.weekday().num_days_from_sunday());
    }
}

#[test]
fn week_grid_places_days_by_week_and_weekday() {
    // 2026-06-03 is a Wednesday; the grid starts on Sunday 2026-05-31.
    let cs = vec![
        day("2026-06-03", Some(40)),
        day("2026-06-07", Some(100)),
        day("garbage", Some(5)),
        day("2026-06-13", None),
        day("2026-06-21", Some(7)),
    ];
    let g = week_grid(&cs).expect("some dates parse");
    assert_eq!(g.cols, 4);
    assert_eq!(g.cells.len(), 28);
    assert_eq!(g.peak_tokens, 100);
    assert_eq!(g.cells[0 * 7 + 3], Some(40)); // Wed of week 0
    assert_eq!(g.cells[1 * 7 + 0], Some(100)); // Sun of week 1
    assert_eq!(g.cells[1 * 7 + 6], Some(0)); // Sat 2026-06-13, tokens absent
    assert_eq!(g.cells[3 * 7 + 0], Some(7)); // Sun of week 3
    let filled = g.cells.iter().filter(|c| c.is_some()).count();
    assert_eq!(filled, 4);
}

#[test]
fn week_grid_later_duplicate_wins_and_peak_is_at_least_one() {
    let cs = vec![day("2026-06-01", Some(9)), day("2026-06-01", Some(-4))];
    let g = week_grid(&cs).unwrap();
    assert_eq!(g.cols, 1);
    assert_eq!(g.cells[1], Some(-4));
    assert_eq!(g.peak_tokens, 9);
    let quiet = vec![day("2026-06-01", Some(0))];
    assert_eq!(week_grid(&quiet).unwrap().peak_tokens, 1);
}

#[test]
fn week_grid_without_parsable_dates_is_none() {
    assert!(week_grid(&Vec::new()).is_none());
    let cs = vec![day("2026/06/01", Some(3)), Contribution { date: None, tokens: Some(1), messages: None, cost_label: String::new() }];
    assert!(week_grid(&cs).is_none());
}
