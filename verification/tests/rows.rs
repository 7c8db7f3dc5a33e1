use tokenbar::payload::{AgentEntry, Contribution, ModelEntry};
use tokenbar::rows::{agent_rows, daily_rows, model_rows, ListRow};

fn rank(cost: f64) -> i64 {
    // The key that orders costs as `f64::total_cmp` does.
    let mut k = cost.to_bits() as i64;
    k ^= (((k >> 63) as u64) >> 1) as i64;
    k
}

fn texts(rows: &[ListRow]) -> Vec<(String, String, String)> {
    rows.iter().map(|r| (r.title.clone(), r.subtitle.clone(), r.value.clone())).collect()
}

fn day(date: Option<&str>, tokens: Option<i64>, messages: Option<i64>, cost: f64) -> Contribution {
    Contribution {
        date: date.map(|s| s.to_string()),
        tokens,
        messages,
        cost_label: format!("${cost:.2}"),
    }
}

#[test]
fn daily_rows_newest_first_skipping_empty_days() {
    let cs = vec![
        day(Some("2026-06-01"), Some(1_200), Some(1_234), 1.5),
        day(Some("2026-06-03"), Some(4_300_000), Some(7), 12.345),
        day(Some("2026-06-02"), Some(0), Some(9), 3.0),
        day(None, Some(5), Some(1), 1.0),
        day(Some("2026-06-02"), None, Some(9), 3.0),
        day(Some("2026-05-30"), Some(999), None, 0.0),
    ];
    let rows = daily_rows(&cs);
    assert_eq!(
        texts(&rows),
        vec![
            ("2026-06-03".into(), "4.3M tokens · 7 msgs".into(), "$12.35".into()),
            ("2026-06-01".into(), "1.2K tokens · 1,234 msgs".into(), "$1.50".into()),
            ("2026-05-30".into(), "999 tokens · 0 msgs".into(), "$0.00".into()),
        ]
    );
}

#[test]
fn daily_rows_order_texts_as_strings_do() {
    let dates = ["b", "ä", "a", "ab", "", "Z", "é", "ab", "a\u{10000}", "a\u{ffff}"];
    let cs: Vec<Contribution> = dates.iter().map(|d| day(Some(d), Some(1), Some(1), 0.0)).collect();
    let got: Vec<String> = daily_rows(&cs).into_iter().map(|r| r.title).collect();
    let mut want: Vec<String> = dates.iter().map(|d| d.to_string()).collect();
    want.sort_by(|a, b| b.cmp(a));
    assert_eq!(got, want);
}

fn agent(name: Option<&str>, clients: &[&str], total: i64, messages: i64, cost: f64) -> AgentEntry {
    AgentEntry {
        agent: name.map(|s| s.to_string()),
        clients: clients.iter().map(|s| s.to_string()).collect(),
        total: Some(total),
        messages: Some(messages),
        cost_rank: rank(cost),
        cost_label: format!("${cost:.2}"),
    }
}

#[test]
fn agent_rows_costliest_first_and_stable() {
    let es = vec![
        agent(Some("explore"), &["alpha"], 1_500, 12, 0.5),
        agent(None, &["alpha", "beta"], 2_000_000, 1_234_567, 9.99),
        agent(Some("audit"), &[], 10, 1, 0.5),
        agent(Some("tiny"), &["x"], 1, 1, -0.0),
        agent(Some("zero"), &["y"], 1, 1, 0.0),
    ];
    let rows = agent_rows(&es);
    assert_eq!(
        texts(&rows),
        vec![
            ("Main".into(), "alpha, beta · 2.0M tokens · 1,234,567 msgs".into(), "$9.99".into()),
            ("explore".into(), "alpha · 1.5K tokens · 12 msgs".into(), "$0.50".into()),
            ("audit".into(), " · 10 tokens · 1 msgs".into(), "$0.50".into()),
            ("zero".into(), "y · 1 tokens · 1 msgs".into(), "$0.00".into()),
            ("tiny".into(), "x · 1 tokens · 1 msgs".into(), "$-0.00".into()),
        ]
    );
}

#[test]
fn model_rows_default_names_and_cost_order() {
    let es = vec![
        ModelEntry {
            model: None,
            provider: None,
            total: None,
            messages: None,
            cost_rank: rank(0.0),
            cost_label: "$0.00".into(),
        },
        ModelEntry {
            model: Some("big-model".into()),
            provider: Some("acme".into()),
            total: Some(4_300_000_000),
            messages: Some(98_765),
            cost_rank: rank(123.456),
            cost_label: "$123.46".into(),
        },
    ];
    let rows = model_rows(&es);
    assert_eq!(
        texts(&rows),
        vec![
            ("big-model".into(), "acme · 4.3B tokens · 98,765 msgs".into(), "$123.46".into()),
            ("unknown".into(), " · 0 tokens · 0 msgs".into(), "$0.00".into()),
        ]
    );
    assert!(model_rows(&Vec::new()).is_empty());
}
