//! Plain records holding what the lenses read from the usage reports. The
//! front end fills them from the report JSON: a field that is absent or of
//! another JSON type is `None`, and a money amount arrives already printed
//! (`cost_label`) together with the key that orders it (`cost_rank`).

use vstd::prelude::*;

verus! {

/// One day of the contribution graph: `date` is the "YYYY-MM-DD" text,
/// `tokens` and `messages` come from its `totals`.
pub struct Contribution {
    pub date: Option<String>,
    pub tokens: Option<i64>,
    pub messages: Option<i64>,
    pub cost_label: String,
}

/// One "YYYY-MM-DD HH:00" slot of the hourly report with its token total.
pub struct HourSlot {
    pub hour: Option<String>,
    pub total: Option<i64>,
}

/// One sub-agent of the agents report. `clients` holds the client names in
/// report order; `cost_rank` orders the costs as `f64::total_cmp` does.
pub struct AgentEntry {
    pub agent: Option<String>,
    pub clients: Vec<String>,
    pub total: Option<i64>,
    pub messages: Option<i64>,
    pub cost_rank: i64,
    pub cost_label: String,
}

/// One model of the models report; `cost_rank` orders the costs as
/// `f64::total_cmp` does.
pub struct ModelEntry {
    pub model: Option<String>,
    pub provider: Option<String>,
    pub total: Option<i64>,
    pub messages: Option<i64>,
    pub cost_rank: i64,
    pub cost_label: String,
}

/// A count read from the report, 0 when it is absent.
pub open spec fn count_or_zero(v: Option<i64>) -> int {
    match v {
        Some(n) => n as int,
        None => 0,
    }
}

pub fn count_of(v: &Option<i64>) -> (n: i64)
    ensures
        n == count_or_zero(*v),
{
    match v {
        Some(n) => *n,
        None => 0,
    }
}

} // verus!
