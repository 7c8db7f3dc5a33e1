use tokenbar::hourly::{bucket_of, fold_by_hour, hour_label, peak, try_fold_by_hour};
use tokenbar::payload::HourSlot;

fn slot(hour: Option<&str>, total: Option<i64>) -> HourSlot {
    HourSlot { hour: hour.map(|s| s.to_string()), total }
}

#[test]
fn fold_sums_tokens_per_hour_of_day() {
    let entries = vec![
        slot(Some("2026-06-01 09:00"), Some(100)),
        slot(Some("2026-06-02 09:00"), Some(50)),
        slot(Some("2026-06-02 23:00"), Some(7)),
        slot(Some("2026-06-02 00:00"), Some(3)),
        slot(Some("2026-06-02 24:00"), Some(1000)),
        slot(Some("2026-06-02"), Some(1000)),
        slot(Some("2026-06-02 xx:00"), Some(1000)),
        slot(None, Some(1000)),
        slot(Some("2026-06-03 10:00"), None),
        slot(Some("2026-06-03 +4:00"), Some(11)),
        slot(Some("2026-06-03 -4:00"), Some(1000)),
        slot(Some("2026-06-03 5 extra"), Some(2)),
    ];
    let b = fold_by_hour(&entries);
    let mut want = [0i64; 24];
    want[9] = 150;
    want[23] = 7;
    want[0] = 3;
    want[4] = 11;
    want[5] = 2;
    assert_eq!(b, want);
    // Nothing with an hour below 24 is lost.
    assert_eq!(b.iter().sum::<i64>(), 173);
}

#[test]
fn bucket_parsing_follows_split_and_parse() {
    for s in ["2026-06-01 07:00", "a 7", "a 007:30", "a +7", "x 18446744073709551616:00", "a  7", "a b:7", "a 2 4", "a 23", "a 24"] {
        let expected = s
            .split(' ')
            .nth(1)
            .and_then(|hm| hm.split(':').next())
            .and_then(|hh| hh.parse::<usize>().ok())
            .filter(|h| *h < 24);
        assert_eq!(bucket_of(s), expected, "{s}");
    }
}

#[test]
fn peak_and_hour_labels() {
    let mut b = [0i64; 24];
    assert_eq!(peak(&b), 1);
    b[3] = 42;
    b[7] = -9;
    assert_eq!(peak(&b), 42);
    assert_eq!(hour_label(0), "00:00");
    assert_eq!(hour_label(9), "09:00");
    assert_eq!(hour_label(23), "23:00");
    assert_eq!(hour_label(123), "123:00");
}

#[test]
fn try_fold_reports_bucket_overflow() {
    let fine = vec![slot(Some("d 01:00"), Some(i64::MAX)), slot(Some("d 02:00"), Some(i64::MAX))];
    let b = try_fold_by_hour(&fine).expect("separate buckets fit");
    assert_eq!(b[1], i64::MAX);
    assert_eq!(b[2], i64::MAX);
    let over = vec![slot(Some("d 01:00"), Some(i64::MAX)), slot(Some("d 01:00"), Some(1))];
    assert!(try_fold_by_hour(&over).is_none());
    let back = vec![slot(Some("d 01:00"), Some(i64::MIN)), slot(Some("d 01:00"), Some(-1))];
    assert!(try_fold_by_hour(&back).is_none());
    let ignored = vec![slot(Some("d 30:00"), Some(i64::MAX)), slot(Some("d 30:00"), Some(i64::MAX))];
    assert_eq!(try_fold_by_hour(&ignored), Some([0i64; 24]));
}
