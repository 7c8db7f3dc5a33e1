use tokenbar::format::{compact, group_thousands};

#[test]
fn groups_thousands() {
    assert_eq!(group_thousands(0), "0");
    assert_eq!(group_thousands(42), "42");
    assert_eq!(group_thousands(1234), "1,234");
    assert_eq!(group_thousands(1234567), "1,234,567");
    assert_eq!(group_thousands(-9876543), "-9,876,543");
}

#[test]
fn compacts_magnitudes() {
    assert_eq!(compact(0), "0");
    assert_eq!(compact(999), "999");
    assert_eq!(compact(1_200), "1.2K");
    assert_eq!(compact(4_300_000), "4.3M");
    assert_eq!(compact(4_300_000_000), "4.3B");
}

/// The same text the float formatting gives.
fn float_compact(n: i64) -> String {
    let a = n.unsigned_abs();
    let sign = if n < 0 { "-" } else { "" };
    let (value, suffix) = match a {
        0..=999 => return format!("{sign}{a}"),
        1_000..=999_999 => (a as f64 / 1e3, "K"),
        1_000_000..=999_999_999 => (a as f64 / 1e6, "M"),
        _ => (a as f64 / 1e9, "B"),
    };
    format!("{sign}{value:.1}{suffix}")
}

#[test]
fn compact_agrees_with_float_formatting_on_ties_and_edges() {
    let mut cases: Vec<i64> = vec![
        i64::MIN,
        i64::MIN + 1,
        i64::MAX,
        -1,
        1,
        999_950,
        999_999,
        1_000_000,
        999_949_999,
        999_950_000,
        999_999_999,
        1_000_000_000,
        (1i64 << 53) - 1,
        1i64 << 53,
        (1i64 << 53) + 1,
        (1i64 << 62) + 12345,
    ];
    for k in 1_000i64..=21_000 {
        cases.push(k);
        cases.push(-k);
    }
    for k in 0i64..2_000 {
        cases.push(1_000_000 + k * 50_000 + 50_000);
        cases.push(1_000_000_000 + k * 5_000_000_000 + 50_000_000);
        cases.push(k * 4_611_686_018_427_387 + 1_000_000_000);
    }
    for n in cases {
        assert_eq!(compact(n), float_compact(n), "n = {n}");
    }
}

#[test]
fn group_thousands_agrees_with_digit_string() {
    for n in [-1_000_000_007i64, -999, -1000, 1000, 999_999, 1_000_000, i64::MAX, i64::MIN] {
        let plain: String = group_thousands(n).chars().filter(|c| *c != ',').collect();
        assert_eq!(plain, n.to_string());
    }
    assert_eq!(group_thousands(i64::MIN), "-9,223,372,036,854,775,808");
}

#[test]
fn compact_never_decreases_within_a_suffix() {
    let value = |s: &str| -> (f64, char) {
        let suffix = s.chars().last().unwrap();
        (s[..s.len() - 1].parse::<f64>().unwrap(), suffix)
    };
    let mut prev = value(&compact(1000));
    let mut n = 1000i64;
    while n < 3_000_000_000 {
        let cur = value(&compact(n));
        if cur.1 == prev.1 {
            assert!(cur.0 >= prev.0, "n = {n}");
        }
        prev = cur;
        n += 1 + n / 997;
    }
}

#[test]
fn compact_sign_mirrors_magnitude() {
    for n in [1i64, 999, 1000, 1049, 1050, 1_250_000, 999_999_999, 7_777_777_777, i64::MAX] {
        assert_eq!(compact(-n), format!("-{}", compact(n)));
    }
    assert_eq!(group_thousands(-999), "-999");
    assert_eq!(group_thousands(999), "999");
}
