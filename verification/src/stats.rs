//! Stats lens: activity streaks over the active calendar days and the small
//! labels of its rows.

use vstd::prelude::*;
use crate::grid::{collect_dated, dated_days, day_pairs};
use crate::payload::Contribution;
use crate::text::{push_signed, signed_decimal};

verus! {

/// Length of the run of consecutive days (each one more than the one before)
/// that ends at index `i`.
pub open spec fn run_at(s: Seq<i32>, i: int) -> int
    decreases i,
{
    if i <= 0 {
        1
    } else if s[i] as int == s[i - 1] as int + 1 {
        run_at(s, i - 1) + 1
    } else {
        1
    }
}

/// The longest run ending at any of the first `k` (at least one) indices.
pub open spec fn longest_run_upto(s: Seq<i32>, k: int) -> int
    decreases k,
{
    if k <= 1 {
        1
    } else {
        let m = longest_run_upto(s, k - 1);
        if run_at(s, k - 1) > m {
            run_at(s, k - 1)
        } else {
            m
        }
    }
}

/// (current streak, longest streak) of `s`: the run ending on the last day
/// and the longest run anywhere; (0, 0) for no days.
pub open spec fn streak_pair(s: Seq<i32>) -> (int, int) {
    if s.len() == 0 {
        (0, 0)
    } else {
        (run_at(s, s.len() - 1), longest_run_upto(s, s.len() as int))
    }
}

/// (current streak, longest streak) of consecutive active calendar days,
/// given as day numbers. The current streak is the run ending on the most
/// recent (last) active day.
pub fn streaks(dates: &[i32]) -> (r: (i64, i64))
    requires
        dates@.len() <= i64::MAX,
    ensures
        r.0 == streak_pair(dates@).0,
        r.1 == streak_pair(dates@).1,
{
    let n = dates.len();
    if n == 0 {
        return (0, 0);
    }
    let mut longest: i64 = 1;
    let mut run: i64 = 1;
    let mut i: usize = 1;
    while i < n
        invariant
            1 <= i <= n,
            n == dates@.len(),
            n <= i64::MAX,
            run == run_at(dates@, i - 1),
            longest == longest_run_upto(dates@, i as int),
            1 <= run <= i,
            1 <= longest <= i,
        decreases n - i,
    {
        if dates[i] as i64 == dates[i - 1] as i64 + 1 {
            run = run + 1;
        } else {
            run = 1;
        }
        if run > longest {
            longest = run;
        }
        i = i + 1;
    }
    (run, longest)
}

/// Every non-empty list of days has a current streak of at least one day,
/// no longer than the longest streak, which is no longer than the list.
pub proof fn lemma_streak_bounds(s: Seq<i32>)
    requires
        s.len() > 0,
    ensures
        1 <= streak_pair(s).0 <= streak_pair(s).1 <= s.len(),
{
    lemma_runs_bounded(s, s.len() as int);
}

proof fn lemma_runs_bounded(s: Seq<i32>, k: int)
    requires
        1 <= k <= s.len(),
    ensures
        1 <= run_at(s, k - 1) <= longest_run_upto(s, k) <= k,
        run_at(s, k - 1) <= k,
    decreases k,
{
    if k > 1 {
        lemma_runs_bounded(s, k - 1);
    }
}

/// "1 day" or "{n} days".
pub open spec fn streak_text(days: int) -> Seq<char> {
    if days == 1 {
        seq!['1', ' ', 'd', 'a', 'y']
    } else {
        signed_decimal(days) + seq![' ', 'd', 'a', 'y', 's']
    }
}

pub fn streak_label(days: i64) -> (s: String)
    ensures
        s@ == streak_text(days as int),
{
    let mut out = String::new();
    if days == 1 {
        out.push('1');
        out.push(' ');
        out.push('d');
        out.push('a');
        out.push('y');
        proof {
            assert(out@ =~= streak_text(days as int));
        }
        return out;
    }
    push_signed(&mut out, days);
    out.push(' ');
    out.push('d');
    out.push('a');
    out.push('y');
    out.push('s');
    proof {
        assert(out@ =~= streak_text(days as int));
    }
    out
}

/// "{part} / {whole}", as the active-days tiles show it.
pub open spec fn fraction_text(part: int, whole: int) -> Seq<char> {
    signed_decimal(part) + seq![' ', '/', ' '] + signed_decimal(whole)
}

pub fn fraction_label(part: i64, whole: i64) -> (s: String)
    ensures
        s@ == fraction_text(part as int, whole as int),
{
    let mut out = String::new();
    push_signed(&mut out, part);
    out.push(' ');
    out.push('/');
    out.push(' ');
    push_signed(&mut out, whole);
    proof {
        assert(out@ =~= fraction_text(part as int, whole as int));
    }
    out
}

/// Day `d` is active in `cs`: some contribution whose date parses to `d`
/// has more than zero tokens.
pub open spec fn is_active_day(cs: Seq<Contribution>, d: int) -> bool {
    exists|i: int|
        0 <= i < dated_days(cs).len() && #[trigger] dated_days(cs)[i].0 == d && dated_days(cs)[i].1 > 0
}

pub open spec fn strictly_increasing(s: Seq<i32>) -> bool {
    forall|i: int, j: int| 0 <= i < j < s.len() ==> s[i] < s[j]
}

/// Insert `x` into the strictly increasing `v`, unless it is already there.
fn insert_day(v: &mut Vec<i32>, x: i32)
    requires
        strictly_increasing(old(v)@),
    ensures
        strictly_increasing(final(v)@),
        forall|y: i32| final(v)@.contains(y) <==> (old(v)@.contains(y) || y == x),
{
    let n = v.len();
    let mut pos: usize = 0;
    while pos < n && v[pos] < x
        invariant
            pos <= n,
            n == v@.len(),
            v@ == old(v)@,
            forall|k: int| 0 <= k < pos ==> v@[k] < x,
        decreases n - pos,
    {
        pos = pos + 1;
    }
    if pos < n && v[pos] == x {
        assert(v@.contains(x) && v@[pos as int] == x);
        return;
    }
    let ghost before = v@;
    v.insert(pos, x);
    proof {
        assert forall|i: int, j: int| 0 <= i < j < v@.len() implies v@[i] < v@[j] by {
            if j < pos {
            } else if j == pos {
            } else if i < pos {
                assert(v@[j] == before[j - 1]);
                assert(before[pos as int] >= x);
            } else if i == pos {
                assert(v@[j] == before[j - 1]);
                assert(before[pos as int] > x);
                assert(j - 1 == pos || before[pos as int] < before[j - 1]);
            } else {
                assert(v@[i] == before[i - 1]);
                assert(v@[j] == before[j - 1]);
            }
        }
        assert(v@ == before.insert(pos as int, x));
        assert forall|y: i32| #[trigger] v@.contains(y) <==> (before.contains(y) || y == x) by {
            if v@.contains(y) {
                let k = choose|k: int| 0 <= k < v@.len() && v@[k] == y;
                if k < pos {
                    assert(before[k] == y);
                } else if k > pos {
                    assert(before[k - 1] == y);
                }
            }
            if before.contains(y) {
                let k = choose|k: int| 0 <= k < before.len() && before[k] == y;
                if k < pos {
                    assert(v@[k] == y);
                } else {
                    assert(v@[k + 1] == y);
                }
            }
            if y == x {
                assert(v@[pos as int] == y);
            }
        }
        assert(before == old(v)@);
    }
}

/// Sorted, unique active dates (days with any tokens), as day numbers.
pub fn active_dates(cs: &Vec<Contribution>) -> (r: Vec<i32>)
    ensures
        strictly_increasing(r@),
        forall|k: int| 0 <= k < r@.len() ==> is_active_day(cs@, #[trigger] r@[k] as int),
        forall|d: int| is_active_day(cs@, d) ==> exists|k: int| 0 <= k < r@.len() && r@[k] == d,
{
    let days = collect_dated(cs);
    let ghost p = day_pairs(days@);
    let n = days.len();
    let mut r: Vec<i32> = Vec::new();
    let mut j: usize = 0;
    while j < n
        invariant
            j <= n,
            n == days@.len(),
            p == day_pairs(days@),
            p == dated_days(cs@),
            strictly_increasing(r@),
            forall|y: i32|
                r@.contains(y) <==> exists|i: int| 0 <= i < j && p[i].0 == y && #[trigger] p[i].1 > 0,
        decreases n - j,
    {
        let (d, t) = days[j];
        assert(p[j as int] == (d as int, t as int));
        let ghost before = r@;
        if t > 0 {
            insert_day(&mut r, d);
        }
        proof {
            assert forall|y: i32|
                r@.contains(y) <==> exists|i: int| 0 <= i < j + 1 && p[i].0 == y && #[trigger] p[i].1 > 0 by {
                if exists|i: int| 0 <= i < j + 1 && p[i].0 == y && #[trigger] p[i].1 > 0 {
                    let i = choose|i: int| 0 <= i < j + 1 && p[i].0 == y && #[trigger] p[i].1 > 0;
                    if i < j {
                        assert(before.contains(y));
                    }
                }
            }
        }
        j = j + 1;
    }
    proof {
        assert forall|k: int| 0 <= k < r@.len() implies is_active_day(cs@, #[trigger] r@[k] as int) by {
            assert(r@.contains(r@[k]));
            let i = choose|i: int| 0 <= i < n && p[i].0 == r@[k] && #[trigger] p[i].1 > 0;
            assert(dated_days(cs@)[i].0 == r@[k] as int);
        }
        assert forall|d: int| is_active_day(cs@, d) implies exists|k: int| 0 <= k < r@.len() && r@[k] == d by {
            let i = choose|i: int|
                0 <= i < dated_days(cs@).len() && #[trigger] dated_days(cs@)[i].0 == d && dated_days(cs@)[i].1 > 0;
            assert(p[i] == (days@[i].0 as int, days@[i].1 as int));
            let y = days@[i].0;
            assert(p[i].1 > 0);
            assert(r@.contains(y));
        }
    }
    r
}

/// Days `s[lo..hi]` follow one another: each is the day after the one before.
pub open spec fn consecutive(s: Seq<i32>, lo: int, hi: int) -> bool {
    forall|j: int| lo <= j && j + 1 < hi ==> #[trigger] s[j + 1] as int == s[j] as int + 1
}

proof fn lemma_run_at_is_run(s: Seq<i32>, i: int)
    requires
        0 <= i < s.len(),
    ensures
        1 <= run_at(s, i) <= i + 1,
        consecutive(s, i - run_at(s, i) + 1, i + 1),
        run_at(s, i) == i + 1 || s[i - run_at(s, i) + 1] as int != s[i - run_at(s, i)] as int + 1,
    decreases i,
{
    if i > 0 {
        lemma_run_at_is_run(s, i - 1);
    }
}

proof fn lemma_run_covers(s: Seq<i32>, lo: int, hi: int)
    requires
        0 <= lo < hi <= s.len(),
        consecutive(s, lo, hi),
    ensures
        hi - lo <= run_at(s, hi - 1),
    decreases hi - lo,
{
    lemma_run_at_is_run(s, hi - 1);
    if hi - lo > 1 {
        assert(consecutive(s, lo, hi - 1)) by {
            assert forall|j: int| lo <= j && j + 1 < hi - 1 implies #[trigger] s[j + 1] as int == s[j] as int + 1 by {
                assert(j + 1 < hi);
            }
        }
        lemma_run_covers(s, lo, hi - 1);
        let k = hi - 2;
        assert(s[k + 1] as int == s[k] as int + 1);
        assert(k + 1 == hi - 1);
        assert(run_at(s, hi - 1) == run_at(s, hi - 2) + 1);
    }
}

proof fn lemma_longest_is_max_run(s: Seq<i32>, k: int)
    requires
        1 <= k <= s.len(),
    ensures
        forall|i: int| 0 <= i < k ==> run_at(s, i) <= longest_run_upto(s, k),
        exists|i: int| 0 <= i < k && run_at(s, i) == longest_run_upto(s, k),
    decreases k,
{
    if k > 1 {
        lemma_longest_is_max_run(s, k - 1);
        if run_at(s, k - 1) <= longest_run_upto(s, k - 1) {
            let i = choose|i: int| 0 <= i < k - 1 && run_at(s, i) == longest_run_upto(s, k - 1);
            assert(run_at(s, i) == longest_run_upto(s, k));
        }
    } else {
        assert(run_at(s, 0) == longest_run_upto(s, k));
    }
}

/// What the streaks are, over any list of days: none for no days; otherwise
/// the current streak is the unbroken run of days ending on the last day (as
/// long as it can be), and the longest streak is the length of some unbroken
/// run that no other unbroken run exceeds.
pub proof fn lemma_streaks_are_runs(s: Seq<i32>)
    ensures
        s.len() == 0 ==> streak_pair(s) == (0int, 0int),
        s.len() > 0 ==> {
            let n = s.len() as int;
            let c = streak_pair(s).0;
            let m = streak_pair(s).1;
            &&& 1 <= c <= n
            &&& consecutive(s, n - c, n)
            &&& (c == n || s[n - c] as int != s[n - c - 1] as int + 1)
            &&& 1 <= m <= n
            &&& exists|lo: int| 0 <= lo && lo + m <= n && #[trigger] consecutive(s, lo, lo + m)
            &&& forall|lo: int, hi: int|
                0 <= lo < hi <= n && #[trigger] consecutive(s, lo, hi) ==> hi - lo <= m
        },
{
    if s.len() > 0 {
        let n = s.len() as int;
        lemma_run_at_is_run(s, n - 1);
        lemma_longest_is_max_run(s, n);
        lemma_runs_bounded(s, n);
        let m = longest_run_upto(s, n);
        let i = choose|i: int| 0 <= i < n && run_at(s, i) == m;
        lemma_run_at_is_run(s, i);
        assert(consecutive(s, i - m + 1, i - m + 1 + m));
        assert forall|lo: int, hi: int|
            0 <= lo < hi <= n && #[trigger] consecutive(s, lo, hi) implies hi - lo <= m by {
            lemma_run_covers(s, lo, hi);
        }
    }
}

} // verus!
