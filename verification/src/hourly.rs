//! Hourly lens: token usage folded into 24 hour-of-day buckets from the
//! hourly report's "YYYY-MM-DD HH:00" slots.

use vstd::prelude::*;
use crate::payload::{count_of, count_or_zero, HourSlot};
use crate::text::{decimal, push_decimal};

verus! {

/// The first index in `[k, end)` holding `c`, or `end` when there is none.
pub open spec fn find_within(s: Seq<char>, c: char, k: int, end: int) -> int
    decreases end - k,
{
    if k >= end {
        end
    } else if s[k] == c {
        k
    } else {
        find_within(s, c, k + 1, end)
    }
}

pub open spec fn is_digit(c: char) -> bool {
    '0' <= c <= '9'
}

pub open spec fn digit_value(c: char) -> nat {
    (c as int - '0' as int) as nat
}

/// The decimal number written by the digits `s[lo..hi]`, when all are digits.
pub open spec fn digits_value(s: Seq<char>, lo: int, hi: int) -> Option<nat>
    decreases hi - lo,
{
    if hi <= lo {
        Some(0)
    } else {
        match digits_value(s, lo, hi - 1) {
            Some(v) => if is_digit(s[hi - 1]) {
                Some(10 * v + digit_value(s[hi - 1]))
            } else {
                None
            },
            None => None,
        }
    }
}

/// `s[lo..hi]` read as an unsigned integer: an optional '+' and then at
/// least one decimal digit.
pub open spec fn unsigned_value(s: Seq<char>, lo: int, hi: int) -> Option<nat> {
    let first = if lo < hi && s[lo] == '+' { lo + 1 } else { lo };
    if first >= hi {
        None
    } else {
        digits_value(s, first, hi)
    }
}

/// The hour of a slot: the second space-separated field of `s`, up to its
/// first ':', read as an unsigned integer.
pub open spec fn slot_hour(s: Seq<char>) -> Option<nat> {
    let sp = find_within(s, ' ', 0, s.len() as int);
    if sp >= s.len() {
        None
    } else {
        let field_end = find_within(s, ' ', sp + 1, s.len() as int);
        let colon = find_within(s, ':', sp + 1, field_end);
        unsigned_value(s, sp + 1, colon)
    }
}

/// The bucket a slot text falls in: its hour when that is below 24.
pub open spec fn slot_bucket(s: Seq<char>) -> Option<nat> {
    match slot_hour(s) {
        Some(h) => if h < 24 {
            Some(h)
        } else {
            None
        },
        None => None,
    }
}

pub open spec fn entry_bucket(e: HourSlot) -> Option<nat> {
    match e.hour {
        Some(s) => slot_bucket(s@),
        None => None,
    }
}

/// Tokens of the slots of `es` in hour `h`, absent totals counted as 0.
pub open spec fn hour_total(es: Seq<HourSlot>, h: int) -> int
    decreases es.len(),
{
    if es.len() == 0 {
        0
    } else {
        hour_total(es.drop_last(), h) + if entry_bucket(es.last()) == Some(h as nat) {
            count_or_zero(es.last().total)
        } else {
            0
        }
    }
}

/// Every running bucket sum of `es` fits an `i64`.
pub open spec fn sums_fit(es: Seq<HourSlot>) -> bool {
    forall|k: int, h: int|
        0 <= k <= es.len() && 0 <= h < 24 ==> i64::MIN <= #[trigger] hour_total(es.take(k), h)
            <= i64::MAX
}

proof fn lemma_find_within(s: Seq<char>, c: char, k: int, end: int, pos: int)
    requires
        k <= pos <= end,
        forall|j: int| k <= j < pos ==> s[j] != c,
        pos == end || s[pos] == c,
    ensures
        find_within(s, c, k, end) == pos,
    decreases pos - k,
{
    if k < pos {
        lemma_find_within(s, c, k + 1, end, pos);
    }
}

/// Scan `s` from `k` for `c`, stopping at `end`.
fn scan_for(s: &str, c: char, k: usize, end: usize) -> (pos: usize)
    requires
        k <= end <= s@.len(),
    ensures
        pos == find_within(s@, c, k as int, end as int),
        k <= pos <= end,
{
    let mut pos = k;
    while pos < end && s.get_char(pos) != c
        invariant
            k <= pos <= end,
            end <= s@.len(),
            forall|j: int| k <= j < pos ==> s@[j] != c,
        decreases end - pos,
    {
        pos = pos + 1;
    }
    proof {
        lemma_find_within(s@, c, k as int, end as int, pos as int);
    }
    pos
}

/// The hour-of-day bucket of a slot text, if its hour is below 24.
pub fn bucket_of(s: &str) -> (b: Option<usize>)
    ensures
        match b {
            Some(h) => slot_bucket(s@) == Some(h as nat) && h < 24,
            None => slot_bucket(s@) is None,
        },
{
    let len = s.unicode_len();
    let sp = scan_for(s, ' ', 0, len);
    if sp >= len {
        return None;
    }
    let field_end = scan_for(s, ' ', sp + 1, len);
    let colon = scan_for(s, ':', sp + 1, field_end);
    let mut first = sp + 1;
    if first < colon && s.get_char(first) == '+' {
        first = first + 1;
    }
    if first >= colon {
        return None;
    }
    // `capped` is the value read so far, held at 24 once it reaches 24.
    let mut capped: usize = 0;
    let mut j = first;
    while j < colon
        invariant
            first <= j <= colon,
            colon <= s@.len(),
            len == s@.len(),
            sp < len,
            sp == find_within(s@, ' ', 0, len as int),
            field_end == find_within(s@, ' ', sp + 1, len as int),
            colon == find_within(s@, ':', sp + 1, field_end as int),
            first == if sp + 1 < colon && s@[sp + 1] == '+' { sp + 2 } else { sp + 1 },
            first < colon,
            digits_value(s@, first as int, j as int) matches Some(v) && capped as nat == if v < 24 {
                v
            } else {
                24
            },
        decreases colon - j,
    {
        let ch = s.get_char(j);
        if !('0' <= ch && ch <= '9') {
            proof {
                lemma_digits_none_from(s@, first as int, j as int, colon as int);
                assert(unsigned_value(s@, sp + 1, colon as int) is None);
                assert(slot_hour(s@) is None);
            }
            return None;
        }
        let d = (ch as u32 - '0' as u32) as usize;
        let next = capped * 10 + d;
        capped = if next < 24 { next } else { 24 };
        j = j + 1;
    }
    if capped < 24 {
        Some(capped)
    } else {
        None
    }
}

proof fn lemma_digits_none_from(s: Seq<char>, lo: int, j: int, hi: int)
    requires
        lo <= j < hi,
        !is_digit(s[j]),
    ensures
        digits_value(s, lo, hi) is None,
    decreases hi - j,
{
    if hi - 1 > j {
        lemma_digits_none_from(s, lo, j, hi - 1);
    }
}

/// The running bucket sums of the first `k` slots all fit an `i64`.
pub open spec fn prefix_sums_fit(es: Seq<HourSlot>, k: int) -> bool {
    forall|m: int, h: int|
        0 <= m <= k && 0 <= h < 24 ==> i64::MIN <= #[trigger] hour_total(es.take(m), h) <= i64::MAX
}

/// Sum tokens into 24 hour-of-day buckets from the "YYYY-MM-DD HH:00" slots;
/// `None` when a running bucket sum leaves the `i64` range (where plain `+=`
/// would overflow).
pub fn try_fold_by_hour(entries: &Vec<HourSlot>) -> (r: Option<[i64; 24]>)
    ensures
        r is Some <==> sums_fit(entries@),
        r matches Some(b) ==> forall|h: int| 0 <= h < 24 ==> #[trigger] b@[h] == hour_total(entries@, h),
{
    let mut buckets = [0i64; 24];
    let mut i: usize = 0;
    assert forall|m: int, h: int| 0 <= m <= 0 && 0 <= h < 24 implies i64::MIN <= #[trigger] hour_total(
        entries@.take(m),
        h,
    ) <= i64::MAX by {
        assert(entries@.take(m).len() == 0);
    }
    while i < entries.len()
        invariant
            i <= entries@.len(),
            prefix_sums_fit(entries@, i as int),
            forall|h: int| 0 <= h < 24 ==> #[trigger] buckets@[h] == hour_total(entries@.take(i as int), h),
        decreases entries@.len() - i,
    {
        let e = &entries[i];
        assert(entries@.take(i + 1).drop_last() =~= entries@.take(i as int));
        assert(entries@.take(i + 1).last() == entries@[i as int]);
        let ghost before = buckets@;
        match &e.hour {
            Some(s) => {
                match bucket_of(s.as_str()) {
                    Some(h) => {
                        let sum = buckets[h].checked_add(count_of(&e.total));
                        assert(hour_total(entries@.take(i + 1), h as int) == before[h as int] + count_or_zero(e.total));
                        match sum {
                            Some(v) => {
                                buckets[h] = v;
                            },
                            None => {
                                assert(!sums_fit(entries@)) by {
                                    assert(!(i64::MIN <= hour_total(entries@.take(i + 1), h as int) <= i64::MAX));
                                }
                                return None;
                            },
                        }
                    },
                    None => {},
                }
            },
            None => {},
        }
        proof {
            assert forall|h: int| 0 <= h < 24 implies #[trigger] buckets@[h] == hour_total(entries@.take(i + 1), h) by {
            }
            assert forall|m: int, h: int| 0 <= m <= i + 1 && 0 <= h < 24 implies i64::MIN <= #[trigger] hour_total(
                entries@.take(m),
                h,
            ) <= i64::MAX by {
                if m == i + 1 {
                    assert(buckets@[h] == hour_total(entries@.take(i + 1), h));
                }
            }
        }
        i = i + 1;
    }
    assert(entries@.take(entries@.len() as int) =~= entries@);
    Some(buckets)
}

/// Sum tokens into 24 hour-of-day buckets from the "YYYY-MM-DD HH:00" slots.
pub fn fold_by_hour(entries: &Vec<HourSlot>) -> (buckets: [i64; 24])
    requires
        sums_fit(entries@),
    ensures
        forall|h: int| 0 <= h < 24 ==> #[trigger] buckets@[h] == hour_total(entries@, h),
{
    try_fold_by_hour(entries).unwrap()
}

/// The scale of the hour bars: the busiest bucket, and at least 1.
pub open spec fn bucket_peak(b: Seq<i64>, k: int) -> int
    decreases k,
{
    if k <= 0 {
        1
    } else {
        let m = bucket_peak(b, k - 1);
        if b[k - 1] > m {
            b[k - 1] as int
        } else {
            m
        }
    }
}

pub fn peak(buckets: &[i64; 24]) -> (m: i64)
    ensures
        m == bucket_peak(buckets@, 24),
{
    let mut m: i64 = 1;
    let mut h: usize = 0;
    while h < 24
        invariant
            h <= 24,
            buckets@.len() == 24,
            m == bucket_peak(buckets@, h as int),
        decreases 24 - h,
    {
        if buckets[h] > m {
            m = buckets[h];
        }
        h = h + 1;
    }
    m
}

/// "HH:00" with the hour zero-padded to two digits.
pub open spec fn hour_text(hour: nat) -> Seq<char> {
    let digits = if hour < 10 { seq!['0'] + decimal(hour) } else { decimal(hour) };
    digits + seq![':', '0', '0']
}

pub fn hour_label(hour: usize) -> (s: String)
    requires
        hour <= u64::MAX,
    ensures
        s@ == hour_text(hour as nat),
{
    let mut out = String::new();
    if hour < 10 {
        out.push('0');
    }
    push_decimal(&mut out, hour as u64);
    out.push(':');
    out.push('0');
    out.push('0');
    proof {
        assert(out@ =~= hour_text(hour as nat));
    }
    out
}

/// Tokens of all slots of `es` whose hour is below 24.
pub open spec fn bucketed_total(es: Seq<HourSlot>) -> int
    decreases es.len(),
{
    if es.len() == 0 {
        0
    } else {
        bucketed_total(es.drop_last()) + if entry_bucket(es.last()) is Some {
            count_or_zero(es.last().total)
        } else {
            0
        }
    }
}

/// The first `k` buckets added up.
pub open spec fn sum_of_hours(es: Seq<HourSlot>, k: int) -> int
    decreases k,
{
    if k <= 0 {
        0
    } else {
        sum_of_hours(es, k - 1) + hour_total(es, k - 1)
    }
}

proof fn lemma_sum_of_hours_step(es: Seq<HourSlot>, k: int)
    requires
        es.len() > 0,
        0 <= k <= 24,
    ensures
        sum_of_hours(es, k) == sum_of_hours(es.drop_last(), k) + match entry_bucket(es.last()) {
            Some(b) => if b < k {
                count_or_zero(es.last().total)
            } else {
                0
            },
            None => 0,
        },
    decreases k,
{
    if k > 0 {
        lemma_sum_of_hours_step(es, k - 1);
    }
}

/// The fold loses no tokens: the 24 buckets add up to the tokens of every
/// slot whose hour is below 24.
pub proof fn lemma_buckets_conserve_tokens(es: Seq<HourSlot>)
    ensures
        sum_of_hours(es, 24) == bucketed_total(es),
    decreases es.len(),
{
    if es.len() > 0 {
        lemma_buckets_conserve_tokens(es.drop_last());
        lemma_sum_of_hours_step(es, 24);
    } else {
        lemma_sum_of_empty(es, 24);
    }
}

proof fn lemma_sum_of_empty(es: Seq<HourSlot>, k: int)
    requires
        es.len() == 0,
    ensures
        sum_of_hours(es, k) == 0,
    decreases k,
{
    if k > 0 {
        lemma_sum_of_empty(es, k - 1);
    }
}

} // verus!
