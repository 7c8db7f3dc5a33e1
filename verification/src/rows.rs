//! The rows of the list lenses (Daily, Agents, Models): a title, a dim
//! subtitle and a right-aligned value per report entry, ranked for display.

use vstd::prelude::*;
use crate::format::{compact, compact_text, group_thousands, thousands};
use crate::payload::{count_of, count_or_zero, AgentEntry, Contribution, ModelEntry};
use crate::ranking::{
    descending, lemma_ranked_descending, text_below, lemma_ranked_permutation, lemma_ranked_stable, rank_class,
    rank_descending, ranked, RankKey,
};

verus! {

/// One rendered row: a title, a dim subtitle, and a right-aligned value.
pub struct ListRow {
    pub title: String,
    pub subtitle: String,
    pub value: String,
}

impl View for ListRow {
    type V = (Seq<char>, Seq<char>, Seq<char>);

    open spec fn view(&self) -> (Seq<char>, Seq<char>, Seq<char>) {
        (self.title@, self.subtitle@, self.value@)
    }
}

/// "{compact tokens} tokens · {grouped messages} msgs".
pub open spec fn usage_text(tokens: int, messages: int) -> Seq<char> {
    compact_text(tokens) + " tokens · "@ + thousands(messages) + " msgs"@
}

fn usage_line(out: &mut String, tokens: i64, messages: i64)
    ensures
        final(out)@ == old(out)@ + usage_text(tokens as int, messages as int),
{
    let c = compact(tokens);
    out.append(c.as_str());
    out.append(" tokens · ");
    let g = group_thousands(messages);
    out.append(g.as_str());
    out.append(" msgs");
    proof {
        assert(final(out)@ =~= old(out)@ + usage_text(tokens as int, messages as int));
    }
}

/// The days of `cs` shown in the Daily lens, keyed by their date text: those
/// with a date and a non-zero token count, in report order.
pub open spec fn daily_keyed(cs: Seq<Contribution>) -> Seq<(Seq<char>, (Seq<char>, Seq<char>, Seq<char>))>
    decreases cs.len(),
{
    if cs.len() == 0 {
        Seq::empty()
    } else {
        let rest = daily_keyed(cs.drop_last());
        let c = cs.last();
        match c.date {
            Some(d) => if count_or_zero(c.tokens) != 0 {
                rest.push(
                    (
                        d@,
                        (
                            d@,
                            usage_text(count_or_zero(c.tokens), count_or_zero(c.messages)),
                            c.cost_label@,
                        ),
                    ),
                )
            } else {
                rest
            },
            None => rest,
        }
    }
}

/// The second components of keyed rows.
pub open spec fn row_views<A>(s: Seq<(A, (Seq<char>, Seq<char>, Seq<char>))>) -> Seq<(Seq<char>, Seq<char>, Seq<char>)> {
    s.map_values(|x: (A, (Seq<char>, Seq<char>, Seq<char>))| x.1)
}

pub open spec fn list_views(rows: Seq<ListRow>) -> Seq<(Seq<char>, Seq<char>, Seq<char>)> {
    rows.map_values(|r: ListRow| r@)
}

/// Strip the keys from ranked rows.
fn drop_keys<K: RankKey>(items: Vec<(K, ListRow)>) -> (rows: Vec<ListRow>)
    ensures
        list_views(rows@) == row_views(crate::ranking::viewed(items@)),
{
    let ghost orig = items@;
    let mut items = items;
    let mut rows: Vec<ListRow> = Vec::new();
    let ghost mut k: int = 0;
    while items.len() > 0
        invariant
            0 <= k <= orig.len(),
            items@ == orig.skip(k),
            list_views(rows@) == row_views(crate::ranking::viewed(orig.take(k))),
        decreases items@.len(),
    {
        assert(k < orig.len());
        assert(rows@.len() == list_views(rows@).len());
        let (_, row) = items.remove(0);
        proof {
            assert(row == orig[k].1);
            let lhs = list_views(rows@.push(row));
            let rhs = row_views(crate::ranking::viewed(orig.take(k + 1)));
            assert forall|j: int| 0 <= j < k + 1 implies #[trigger] lhs[j] == rhs[j] by {
                if j < k {
                    assert(list_views(rows@)[j] == row_views(crate::ranking::viewed(orig.take(k)))[j]);
                    assert(orig.take(k)[j] == orig.take(k + 1)[j]);
                }
            }
            assert(lhs =~= rhs);
            k = k + 1;
            assert(items@ =~= orig.skip(k));
        }
        rows.push(row);
    }
    assert(orig.take(k) =~= orig);
    rows
}

/// Daily rows: each day with usage, most recent first (ISO dates order as
/// text).
pub fn daily_rows(cs: &Vec<Contribution>) -> (rows: Vec<ListRow>)
    ensures
        list_views(rows@) == row_views(ranked(daily_keyed(cs@), <String as RankKey>::order())),
{
    let mut items: Vec<(String, ListRow)> = Vec::new();
    let mut i: usize = 0;
    while i < cs.len()
        invariant
            i <= cs@.len(),
            crate::ranking::viewed(items@) == daily_keyed(cs@.take(i as int)),
        decreases cs@.len() - i,
    {
        let c = &cs[i];
        assert(cs@.take(i + 1).drop_last() =~= cs@.take(i as int));
        assert(cs@.take(i + 1).last() == cs@[i as int]);
        let ghost before = items@;
        match &c.date {
            Some(d) => {
                let tokens = count_of(&c.tokens);
                if tokens != 0 {
                    let mut subtitle = String::new();
                    usage_line(&mut subtitle, tokens, count_of(&c.messages));
                    let row = ListRow { title: d.clone(), subtitle, value: c.cost_label.clone() };
                    items.push((d.clone(), row));
                    assert(crate::ranking::viewed(items@) =~= crate::ranking::viewed(before).push(
                        (d@, (d@, usage_text(tokens as int, count_or_zero(c.messages)), c.cost_label@)),
                    ));
                }
            },
            None => {},
        }
        i = i + 1;
    }
    assert(cs@.take(cs@.len() as int) =~= cs@);
    let ranked_items = rank_descending(items);
    drop_keys(ranked_items)
}

/// `parts` joined with `sep` between neighbours.
pub open spec fn joined(parts: Seq<Seq<char>>, sep: Seq<char>) -> Seq<char>
    decreases parts.len(),
{
    if parts.len() == 0 {
        Seq::empty()
    } else if parts.len() == 1 {
        parts[0]
    } else {
        joined(parts.drop_last(), sep) + sep + parts.last()
    }
}

pub open spec fn text_views(v: Seq<String>) -> Seq<Seq<char>> {
    v.map_values(|s: String| s@)
}

/// Append the names joined by ", ".
fn push_joined(out: &mut String, names: &Vec<String>)
    ensures
        final(out)@ == old(out)@ + joined(text_views(names@), ", "@),
{
    let ghost start = out@;
    let ghost parts = text_views(names@);
    let mut i: usize = 0;
    while i < names.len()
        invariant
            i <= names@.len(),
            parts == text_views(names@),
            out@ == start + joined(parts.take(i as int), ", "@),
        decreases names@.len() - i,
    {
        assert(parts.take(i + 1).drop_last() =~= parts.take(i as int));
        assert(parts.take(i + 1).last() == names@[i as int]@);
        if i > 0 {
            out.append(", ");
        } else {
            assert(parts.take(0) =~= Seq::<Seq<char>>::empty());
        }
        out.append(names[i].as_str());
        proof {
            if i == 0 {
                assert(joined(parts.take(1), ", "@) == parts.take(1)[0]);
            }
            assert(out@ =~= start + joined(parts.take(i + 1), ", "@));
        }
        i = i + 1;
    }
    assert(parts.take(names@.len() as int) =~= parts);
}

/// The row of one agent, keyed by its cost rank: the agent's name ("Main"
/// when absent), its clients and usage, and its cost.
pub open spec fn agent_row(e: AgentEntry) -> (int, (Seq<char>, Seq<char>, Seq<char>)) {
    let title = match e.agent {
        Some(a) => a@,
        None => "Main"@,
    };
    let subtitle = joined(text_views(e.clients@), ", "@) + " · "@ + usage_text(
        count_or_zero(e.total),
        count_or_zero(e.messages),
    );
    (e.cost_rank as int, (title, subtitle, e.cost_label@))
}

/// Agents rows: every sub-agent, costliest first.
pub fn agent_rows(entries: &Vec<AgentEntry>) -> (rows: Vec<ListRow>)
    ensures
        list_views(rows@) == row_views(
            ranked(entries@.map_values(|e: AgentEntry| agent_row(e)), <i64 as RankKey>::order()),
        ),
{
    let ghost keyed = entries@.map_values(|e: AgentEntry| agent_row(e));
    let mut items: Vec<(i64, ListRow)> = Vec::new();
    let mut i: usize = 0;
    while i < entries.len()
        invariant
            i <= entries@.len(),
            keyed == entries@.map_values(|e: AgentEntry| agent_row(e)),
            crate::ranking::viewed(items@) == keyed.take(i as int),
        decreases entries@.len() - i,
    {
        let e = &entries[i];
        let title = match &e.agent {
            Some(a) => a.clone(),
            None => String::from_str("Main"),
        };
        let mut subtitle = String::new();
        push_joined(&mut subtitle, &e.clients);
        subtitle.append(" · ");
        usage_line(&mut subtitle, count_of(&e.total), count_of(&e.messages));
        let row = ListRow { title, subtitle, value: e.cost_label.clone() };
        let ghost before = items@;
        items.push((e.cost_rank, row));
        proof {
            assert(keyed[i as int] == agent_row(entries@[i as int]));
            assert(*e == entries@[i as int]);
            assert(row@.0 == agent_row(*e).1.0);
            assert(row@.1 =~= agent_row(*e).1.1);
            assert(row@ == agent_row(*e).1);
            let v = crate::ranking::viewed(items@);
            assert(v =~= crate::ranking::viewed(before).push((e.cost_rank as int, row@)));
            assert(keyed.take(i + 1) =~= keyed.take(i as int).push(keyed[i as int]));
            assert(v =~= keyed.take(i + 1));
        }
        i = i + 1;
    }
    assert(keyed.take(entries@.len() as int) =~= keyed);
    let ranked_items = rank_descending(items);
    drop_keys(ranked_items)
}

/// The row of one model, keyed by its cost rank: the model's name
/// ("unknown" when absent), its provider and usage, and its cost.
pub open spec fn model_row(e: ModelEntry) -> (int, (Seq<char>, Seq<char>, Seq<char>)) {
    let title = match e.model {
        Some(m) => m@,
        None => "unknown"@,
    };
    let provider = match e.provider {
        Some(p) => p@,
        None => Seq::empty(),
    };
    let subtitle = provider + " · "@ + usage_text(count_or_zero(e.total), count_or_zero(e.messages));
    (e.cost_rank as int, (title, subtitle, e.cost_label@))
}

/// Models rows: every model, costliest first.
pub fn model_rows(entries: &Vec<ModelEntry>) -> (rows: Vec<ListRow>)
    ensures
        list_views(rows@) == row_views(
            ranked(entries@.map_values(|e: ModelEntry| model_row(e)), <i64 as RankKey>::order()),
        ),
{
    let ghost keyed = entries@.map_values(|e: ModelEntry| model_row(e));
    let mut items: Vec<(i64, ListRow)> = Vec::new();
    let mut i: usize = 0;
    while i < entries.len()
        invariant
            i <= entries@.len(),
            keyed == entries@.map_values(|e: ModelEntry| model_row(e)),
            crate::ranking::viewed(items@) == keyed.take(i as int),
        decreases entries@.len() - i,
    {
        let e = &entries[i];
        let title = match &e.model {
            Some(m) => m.clone(),
            None => String::from_str("unknown"),
        };
        let mut subtitle = match &e.provider {
            Some(p) => p.clone(),
            None => String::new(),
        };
        subtitle.append(" · ");
        usage_line(&mut subtitle, count_of(&e.total), count_of(&e.messages));
        let row = ListRow { title, subtitle, value: e.cost_label.clone() };
        let ghost before = items@;
        items.push((e.cost_rank, row));
        proof {
            assert(keyed[i as int] == model_row(entries@[i as int]));
            assert(*e == entries@[i as int]);
            assert(row@.0 == model_row(*e).1.0);
            assert(row@.1 =~= model_row(*e).1.1);
            assert(row@ == model_row(*e).1);
            let v = crate::ranking::viewed(items@);
            assert(v =~= crate::ranking::viewed(before).push((e.cost_rank as int, row@)));
            assert(keyed.take(i + 1) =~= keyed.take(i as int).push(keyed[i as int]));
            assert(v =~= keyed.take(i + 1));
        }
        i = i + 1;
    }
    assert(keyed.take(entries@.len() as int) =~= keyed);
    let ranked_items = rank_descending(items);
    drop_keys(ranked_items)
}

/// The Daily lens lists the days with usage from the most recent date down,
/// each day exactly once for each time the report gives it.
pub proof fn lemma_daily_most_recent_first(cs: Seq<Contribution>)
    ensures
        descending(ranked(daily_keyed(cs), <String as RankKey>::order()), <String as RankKey>::order()),
        ranked(daily_keyed(cs), <String as RankKey>::order()).to_multiset() =~= daily_keyed(
            cs,
        ).to_multiset(),
{
    <String as RankKey>::lemma_order();
    lemma_ranked_descending(daily_keyed(cs), <String as RankKey>::order());
    lemma_ranked_permutation(daily_keyed(cs), <String as RankKey>::order());
}

/// The Agents lens lists every agent, costliest first; agents of equal cost
/// keep the report's order.
pub proof fn lemma_agents_costliest_first(es: Seq<AgentEntry>, cost: int)
    ensures
        ({
            let keyed = es.map_values(|e: AgentEntry| agent_row(e));
            let order = <i64 as RankKey>::order();
            &&& descending(ranked(keyed, order), order)
            &&& ranked(keyed, order).to_multiset() =~= keyed.to_multiset()
            &&& ranked(keyed, order).filter(rank_class(cost, order)) == keyed.filter(rank_class(cost, order))
        }),
{
    let keyed = es.map_values(|e: AgentEntry| agent_row(e));
    let order = <i64 as RankKey>::order();
    <i64 as RankKey>::lemma_order();
    lemma_ranked_descending(keyed, order);
    lemma_ranked_permutation(keyed, order);
    lemma_ranked_stable(keyed, cost, order);
}

/// The Models lens lists every model, costliest first; models of equal cost
/// keep the report's order.
pub proof fn lemma_models_costliest_first(es: Seq<ModelEntry>, cost: int)
    ensures
        ({
            let keyed = es.map_values(|e: ModelEntry| model_row(e));
            let order = <i64 as RankKey>::order();
            &&& descending(ranked(keyed, order), order)
            &&& ranked(keyed, order).to_multiset() =~= keyed.to_multiset()
            &&& ranked(keyed, order).filter(rank_class(cost, order)) == keyed.filter(rank_class(cost, order))
        }),
{
    let keyed = es.map_values(|e: ModelEntry| model_row(e));
    let order = <i64 as RankKey>::order();
    <i64 as RankKey>::lemma_order();
    lemma_ranked_descending(keyed, order);
    lemma_ranked_permutation(keyed, order);
    lemma_ranked_stable(keyed, cost, order);
}

/// Agents rows come out with their cost ranks (the `f64::total_cmp` order
/// of the costs) numerically non-increasing: a costlier agent always comes
/// before a cheaper one.
pub proof fn lemma_agent_rows_cost_descending(es: Seq<AgentEntry>)
    ensures
        ({
            let r = ranked(es.map_values(|e: AgentEntry| agent_row(e)), <i64 as RankKey>::order());
            forall|i: int, j: int| 0 <= i < j < r.len() ==> (#[trigger] r[i]).0 >= (#[trigger] r[j]).0
        }),
{
    let keyed = es.map_values(|e: AgentEntry| agent_row(e));
    <i64 as RankKey>::lemma_order();
    lemma_ranked_descending(keyed, <i64 as RankKey>::order());
}

/// Models rows come out with their cost ranks numerically non-increasing.
pub proof fn lemma_model_rows_cost_descending(es: Seq<ModelEntry>)
    ensures
        ({
            let r = ranked(es.map_values(|e: ModelEntry| model_row(e)), <i64 as RankKey>::order());
            forall|i: int, j: int| 0 <= i < j < r.len() ==> (#[trigger] r[i]).0 >= (#[trigger] r[j]).0
        }),
{
    let keyed = es.map_values(|e: ModelEntry| model_row(e));
    <i64 as RankKey>::lemma_order();
    lemma_ranked_descending(keyed, <i64 as RankKey>::order());
}

/// Daily rows come out with no date text ranking lexicographically (by
/// character code) below a later row's: for ISO dates, the most recent first.
pub proof fn lemma_daily_rows_dates_descending(cs: Seq<Contribution>)
    ensures
        ({
            let r = ranked(daily_keyed(cs), <String as RankKey>::order());
            forall|i: int, j: int| 0 <= i < j < r.len() ==> !text_below((#[trigger] r[i]).0, (#[trigger] r[j]).0)
        }),
{
    <String as RankKey>::lemma_order();
    lemma_ranked_descending(daily_keyed(cs), <String as RankKey>::order());
}

} // verus!
