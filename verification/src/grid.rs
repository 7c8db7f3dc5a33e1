//! Placement of the contribution days on the 3D graph's week grid: one column
//! per week, one row per weekday (Sunday first), the first column starting on
//! the Sunday on or before the earliest day.

use vstd::prelude::*;
use crate::calendar::{iso_day_number, parse_ymd, weekday_from_sunday, weekday_of};
use crate::payload::{count_of, count_or_zero, Contribution};

verus! {

/// The days of `cs` whose date chrono parses, in order, as
/// (day number, tokens) with absent tokens counted as 0.
pub open spec fn dated_days(cs: Seq<Contribution>) -> Seq<(int, int)>
    decreases cs.len(),
{
    if cs.len() == 0 {
        Seq::empty()
    } else {
        let rest = dated_days(cs.drop_last());
        let c = cs.last();
        match c.date {
            Some(s) => match iso_day_number(s@) {
                Some(d) => rest.push((d, count_or_zero(c.tokens))),
                None => rest,
            },
            None => rest,
        }
    }
}

/// The earliest day number in a non-empty `p`.
pub open spec fn earliest_day(p: Seq<(int, int)>) -> int
    decreases p.len(),
{
    if p.len() <= 1 {
        p[0].0
    } else {
        let m = earliest_day(p.drop_last());
        if p.last().0 < m {
            p.last().0
        } else {
            m
        }
    }
}

/// The Sunday on or before the earliest day: the first day of column 0.
pub open spec fn grid_start(p: Seq<(int, int)>) -> int {
    earliest_day(p) - weekday_of(earliest_day(p))
}

/// The column (week) of day `d` in a grid starting on day `start`.
pub open spec fn column_of(start: int, d: int) -> int {
    (d - start) / 7
}

/// The greatest column any day of `p` falls in (0 for no days).
pub open spec fn last_column(p: Seq<(int, int)>, start: int) -> int
    decreases p.len(),
{
    if p.len() == 0 {
        0
    } else {
        let m = last_column(p.drop_last(), start);
        let c = column_of(start, p.last().0);
        if c > m {
            c
        } else {
            m
        }
    }
}

/// Tokens of cell (`col`, `row`): those of the last day of `p` placed there,
/// or `None` when no day falls in it.
pub open spec fn cell_tokens(p: Seq<(int, int)>, start: int, col: int, row: int) -> Option<int>
    decreases p.len(),
{
    if p.len() == 0 {
        None
    } else if column_of(start, p.last().0) == col && weekday_of(p.last().0) == row {
        Some(p.last().1)
    } else {
        cell_tokens(p.drop_last(), start, col, row)
    }
}

/// The busiest day's tokens, and at least 1: the scale the bar heights are
/// normalised against.
pub open spec fn peak_tokens(p: Seq<(int, int)>) -> int
    decreases p.len(),
{
    if p.len() == 0 {
        1
    } else {
        let m = peak_tokens(p.drop_last());
        if p.last().1 > m {
            p.last().1
        } else {
            m
        }
    }
}

pub open spec fn widened(o: Option<i64>) -> Option<int> {
    match o {
        Some(t) => Some(t as int),
        None => None,
    }
}

/// The contribution days laid out week by week: `cells[col * 7 + row]` holds
/// the tokens of the day in column `col`, weekday `row`, if any.
pub struct WeekGrid {
    pub cols: usize,
    pub cells: Vec<Option<i64>>,
    pub peak_tokens: i64,
}

pub open spec fn day_pairs(v: Seq<(i32, i64)>) -> Seq<(int, int)> {
    v.map_values(|x: (i32, i64)| (x.0 as int, x.1 as int))
}

proof fn lemma_earliest_is_least(p: Seq<(int, int)>)
    requires
        p.len() > 0,
    ensures
        forall|i: int| 0 <= i < p.len() ==> earliest_day(p) <= #[trigger] p[i].0,
        exists|i: int| 0 <= i < p.len() && earliest_day(p) == p[i].0,
    decreases p.len(),
{
    if p.len() > 1 {
        lemma_earliest_is_least(p.drop_last());
        let q = p.drop_last();
        assert forall|i: int| 0 <= i < p.len() implies earliest_day(p) <= #[trigger] p[i].0 by {
            if i < p.len() - 1 {
                assert(p[i] == q[i]);
            }
        }
        let k = choose|i: int| 0 <= i < q.len() && earliest_day(q) == q[i].0;
        if p.last().0 < earliest_day(q) {
            assert(earliest_day(p) == p[p.len() - 1].0);
        } else {
            assert(earliest_day(p) == p[k].0);
        }
    } else {
        assert(earliest_day(p) == p[0].0);
    }
}

/// Collect the dated days of `cs` as (day number, tokens).
pub(crate) fn collect_dated(cs: &Vec<Contribution>) -> (days: Vec<(i32, i64)>)
    ensures
        day_pairs(days@) == dated_days(cs@),
        forall|i: int| 0 <= i < days@.len() ==> -100_000_000 < #[trigger] days@[i].0 < 100_000_000,
{
    let mut days: Vec<(i32, i64)> = Vec::new();
    let mut i: usize = 0;
    while i < cs.len()
        invariant
            i <= cs@.len(),
            day_pairs(days@) == dated_days(cs@.take(i as int)),
            forall|k: int| 0 <= k < days@.len() ==> -100_000_000 < #[trigger] days@[k].0 < 100_000_000,
        decreases cs@.len() - i,
    {
        let c = &cs[i];
        let ghost before = days@;
        assert(cs@.take(i + 1).drop_last() =~= cs@.take(i as int));
        assert(cs@.take(i + 1).last() == cs@[i as int]);
        match &c.date {
            Some(s) => {
                match parse_ymd(s.as_str()) {
                    Some(d) => {
                        days.push((d, count_of(&c.tokens)));
                        assert(day_pairs(days@) =~= day_pairs(before).push((d as int, count_or_zero(c.tokens))));
                    },
                    None => {},
                }
            },
            None => {},
        }
        i = i + 1;
    }
    assert(cs@.take(cs@.len() as int) =~= cs@);
    days
}

proof fn lemma_last_column_bounds(p: Seq<(int, int)>, start: int)
    requires
        forall|i: int| 0 <= i < p.len() ==> start <= #[trigger] p[i].0,
    ensures
        forall|i: int| 0 <= i < p.len() ==> column_of(start, #[trigger] p[i].0) <= last_column(p, start),
        p.len() > 0 ==> exists|i: int| 0 <= i < p.len() && column_of(start, p[i].0) == last_column(p, start),
    decreases p.len(),
{
    if p.len() > 0 {
        let q = p.drop_last();
        assert forall|i: int| 0 <= i < q.len() implies start <= #[trigger] q[i].0 by {
            assert(q[i] == p[i]);
        }
        lemma_last_column_bounds(q, start);
        assert forall|i: int| 0 <= i < p.len() implies column_of(start, #[trigger] p[i].0) <= last_column(p, start) by {
            if i < p.len() - 1 {
                assert(p[i] == q[i]);
            }
        }
        if column_of(start, p.last().0) > last_column(q, start) || q.len() == 0 {
            assert(column_of(start, p[p.len() - 1].0) == last_column(p, start));
        } else {
            let k = choose|i: int| 0 <= i < q.len() && column_of(start, q[i].0) == last_column(q, start);
            assert(column_of(start, p[k].0) == last_column(p, start));
        }
    }
}

/// Lay the dated contribution days out on the week grid. `None` when no
/// date parses.
pub fn week_grid(cs: &Vec<Contribution>) -> (g: Option<WeekGrid>)
    ensures
        match g {
            None => dated_days(cs@).len() == 0,
            Some(g) => {
                let p = dated_days(cs@);
                let start = grid_start(p);
                &&& p.len() > 0
                &&& g.cols == last_column(p, start) + 1
                &&& g.cells@.len() == g.cols * 7
                &&& forall|c: int, r: int|
                    0 <= c < g.cols && 0 <= r < 7 ==> widened(#[trigger] g.cells@[c * 7 + r])
                        == cell_tokens(p, start, c, r)
                &&& g.peak_tokens == peak_tokens(p)
                &&& forall|i: int| 0 <= i < p.len() ==> (#[trigger] p[i]).1 <= g.peak_tokens
                &&& g.peak_tokens >= 1
                &&& (g.peak_tokens == 1 || exists|i: int| 0 <= i < p.len() && p[i].1 == g.peak_tokens)
            },
        },
{
    let days = collect_dated(cs);
    let n = days.len();
    if n == 0 {
        return None;
    }
    let ghost p = day_pairs(days@);
    assert(p.len() == n);
    let mut earliest: i32 = days[0].0;
    let mut j: usize = 1;
    assert(p.take(1).len() == 1 && p.take(1)[0] == p[0]);
    while j < n
        invariant
            1 <= j <= n,
            n == days@.len(),
            p == day_pairs(days@),
            earliest == earliest_day(p.take(j as int)),
        decreases n - j,
    {
        assert(p.take(j + 1).drop_last() =~= p.take(j as int));
        assert(p.take(j + 1).last() == p[j as int]);
        if days[j].0 < earliest {
            earliest = days[j].0;
        }
        j = j + 1;
    }
    assert(p.take(n as int) =~= p);
    proof {
        lemma_earliest_is_least(p);
    }
    let start: i64 = earliest as i64 - weekday_from_sunday(earliest) as i64;
    assert(start == grid_start(p));
    let mut last_col: usize = 0;
    let mut peak: i64 = 1;
    let mut j: usize = 0;
    while j < n
        invariant
            j <= n,
            n == days@.len(),
            p == day_pairs(days@),
            start == grid_start(p),
            forall|i: int| 0 <= i < p.len() ==> start <= #[trigger] p[i].0 < start + 200_000_010,
            last_col == last_column(p.take(j as int), start as int),
            last_col <= 28_571_430,
            peak == peak_tokens(p.take(j as int)),
        decreases n - j,
    {
        assert(p.take(j + 1).drop_last() =~= p.take(j as int));
        assert(p.take(j + 1).last() == p[j as int]);
        let (d, t) = days[j];
        assert(p[j as int] == (d as int, t as int));
        let col = ((d as i64 - start) / 7) as usize;
        if col > last_col {
            last_col = col;
        }
        if t > peak {
            peak = t;
        }
        j = j + 1;
    }
    assert(p.take(n as int) =~= p);
    let cols = last_col + 1;
    let size = cols * 7;
    let mut cells: Vec<Option<i64>> = Vec::new();
    let mut k: usize = 0;
    while k < size
        invariant
            k <= size,
            cells@.len() == k,
            forall|i: int| 0 <= i < k ==> #[trigger] cells@[i] is None,
        decreases size - k,
    {
        cells.push(None);
        k = k + 1;
    }
    let mut j: usize = 0;
    while j < n
        invariant
            j <= n,
            n == days@.len(),
            p == day_pairs(days@),
            start == grid_start(p),
            forall|i: int| 0 <= i < p.len() ==> start <= #[trigger] p[i].0 < start + 200_000_010,
            cols == last_column(p, start as int) + 1,
            size == cols * 7,
            cells@.len() == size,
            forall|c: int, r: int|
                0 <= c < cols && 0 <= r < 7 ==> widened(#[trigger] cells@[c * 7 + r])
                    == cell_tokens(p.take(j as int), start as int, c, r),
        decreases n - j,
    {
        assert(p.take(j + 1).drop_last() =~= p.take(j as int));
        assert(p.take(j + 1).last() == p[j as int]);
        let (d, t) = days[j];
        assert(p[j as int] == (d as int, t as int));
        let col = ((d as i64 - start) / 7) as usize;
        let row = weekday_from_sunday(d) as usize;
        proof {
            lemma_last_column_bounds(p, start as int);
        }
        assert(col == column_of(start as int, p[j as int].0));
        assert(col < cols);
        cells[col * 7 + row] = Some(t);
        j = j + 1;
    }
    assert(p.take(n as int) =~= p);
    proof {
        lemma_peak_bounds_every_day(p);
    }
    Some(WeekGrid { cols, cells, peak_tokens: peak })
}

proof fn lemma_cell_filled(p: Seq<(int, int)>, start: int, i: int)
    requires
        0 <= i < p.len(),
    ensures
        cell_tokens(p, start, column_of(start, p[i].0), weekday_of(p[i].0)) is Some,
    decreases p.len(),
{
    if i < p.len() - 1 {
        let q = p.drop_last();
        assert(q[i] == p[i]);
        lemma_cell_filled(q, start, i);
    }
}

/// Column 0 begins on a Sunday, on or before the earliest day and less than
/// a week before it, and no day precedes it.
pub proof fn lemma_grid_starts_on_sunday(p: Seq<(int, int)>)
    requires
        p.len() > 0,
    ensures
        weekday_of(grid_start(p)) == 0,
        grid_start(p) <= earliest_day(p) < grid_start(p) + 7,
        forall|i: int| 0 <= i < p.len() ==> grid_start(p) <= #[trigger] p[i].0,
{
    lemma_earliest_is_least(p);
}

/// Every day whose date parses lands in the grid: in a column below `cols`,
/// in the row of its weekday, and that cell is filled.
pub proof fn lemma_every_day_on_grid(cs: Seq<Contribution>)
    requires
        dated_days(cs).len() > 0,
    ensures
        forall|i: int|
            #![trigger dated_days(cs)[i]]
            0 <= i < dated_days(cs).len() ==> {
                let p = dated_days(cs);
                let c = column_of(grid_start(p), p[i].0);
                &&& 0 <= c <= last_column(p, grid_start(p))
                &&& 0 <= weekday_of(p[i].0) < 7
                &&& cell_tokens(p, grid_start(p), c, weekday_of(p[i].0)) is Some
            },
{
    let p = dated_days(cs);
    lemma_grid_starts_on_sunday(p);
    lemma_last_column_bounds(p, grid_start(p));
    assert forall|i: int| 0 <= i < p.len() implies cell_tokens(
        p,
        grid_start(p),
        column_of(grid_start(p), #[trigger] p[i].0),
        weekday_of(p[i].0),
    ) is Some by {
        lemma_cell_filled(p, grid_start(p), i);
    }
}

/// Weekdays align to fixed rows across every column: from the grid's first
/// Sunday on, a day's row is its offset within its week, and the same weekday
/// one week later sits in the same row of the next column.
pub proof fn lemma_rows_align_with_weeks(p: Seq<(int, int)>, d: int)
    requires
        p.len() > 0,
        d >= grid_start(p),
    ensures
        weekday_of(d) == (d - grid_start(p)) % 7,
        weekday_of(d + 7) == weekday_of(d),
        column_of(grid_start(p), d + 7) == column_of(grid_start(p), d) + 1,
{
    lemma_grid_starts_on_sunday(p);
}

/// The bar scale bounds every day: no day has more tokens than the peak, the
/// peak is at least 1, and it is 1 or some day's tokens.
pub proof fn lemma_peak_bounds_every_day(p: Seq<(int, int)>)
    ensures
        forall|i: int| 0 <= i < p.len() ==> (#[trigger] p[i]).1 <= peak_tokens(p),
        peak_tokens(p) >= 1,
        peak_tokens(p) == 1 || exists|i: int| 0 <= i < p.len() && p[i].1 == peak_tokens(p),
    decreases p.len(),
{
    if p.len() > 0 {
        let q = p.drop_last();
        lemma_peak_bounds_every_day(q);
        assert forall|i: int| 0 <= i < p.len() implies (#[trigger] p[i]).1 <= peak_tokens(p) by {
            if i < p.len() - 1 {
                assert(p[i] == q[i]);
            }
        }
        if peak_tokens(p) != 1 {
            if p.last().1 > peak_tokens(q) {
                assert(p[p.len() - 1].1 == peak_tokens(p));
            } else {
                let k = choose|i: int| 0 <= i < q.len() && q[i].1 == peak_tokens(q);
                assert(p[k] == q[k]);
            }
        }
    }
}

} // verus!
