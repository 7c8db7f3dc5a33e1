//! Number formatting for the lens rows: thousands separators and the compact
//! one-decimal magnitudes used in dense rows.

use vstd::prelude::*;
use crate::binary64::{f64_quotient_tenths, lemma_quotient_tenths_monotone, quotient_tenths};
use crate::text::{decimal, digit, digit_char, magnitude, push_decimal, push_decimal_chars, signed_decimal};

verus! {

/// Digits split into groups of three from the right, joined by commas.
pub open spec fn grouped(ds: Seq<char>) -> Seq<char>
    decreases ds.len(),
{
    if ds.len() <= 3 {
        ds
    } else {
        grouped(ds.subrange(0, ds.len() - 3)) + seq![','] + ds.subrange(ds.len() - 3, ds.len() as int)
    }
}

/// `n` with thousands separators, e.g. -9876543 as "-9,876,543".
pub open spec fn thousands(n: int) -> Seq<char> {
    if n < 0 {
        seq!['-'] + grouped(decimal((-n) as nat))
    } else {
        grouped(decimal(n as nat))
    }
}

/// The first `i` digits of `ds`, each preceded by a comma when a multiple of
/// three digits follows it and it is not the first digit.
pub open spec fn comma_prefix(ds: Seq<char>, i: nat) -> Seq<char>
    decreases i,
{
    if i == 0 {
        seq![]
    } else {
        let j = (i - 1) as nat;
        let sep = if j > 0 && (ds.len() - j) % 3 == 0 { seq![','] } else { seq![] };
        comma_prefix(ds, j) + sep + seq![ds[j as int]]
    }
}

proof fn lemma_comma_prefix_short(ds: Seq<char>, i: nat)
    requires
        i <= ds.len() <= 3,
    ensures
        comma_prefix(ds, i) =~= ds.subrange(0, i as int),
    decreases i,
{
    if i > 0 {
        lemma_comma_prefix_short(ds, (i - 1) as nat);
    }
}

proof fn lemma_comma_prefix_head(ds: Seq<char>, i: nat)
    requires
        ds.len() > 3,
        i <= ds.len() - 3,
    ensures
        comma_prefix(ds, i) == comma_prefix(ds.subrange(0, ds.len() - 3), i),
    decreases i,
{
    if i > 0 {
        lemma_comma_prefix_head(ds, (i - 1) as nat);
        let j = (i - 1) as nat;
        assert((ds.len() - j) % 3 == (ds.len() - 3 - j) % 3);
    }
}

proof fn lemma_comma_prefix_grouped(ds: Seq<char>)
    ensures
        comma_prefix(ds, ds.len()) == grouped(ds),
    decreases ds.len(),
{
    if ds.len() <= 3 {
        lemma_comma_prefix_short(ds, ds.len());
        assert(ds.subrange(0, ds.len() as int) =~= ds);
    } else {
        let n = ds.len();
        let head = ds.subrange(0, n - 3);
        lemma_comma_prefix_head(ds, (n - 3) as nat);
        lemma_comma_prefix_grouped(head);
        assert(head.len() == n - 3);
        let p3 = comma_prefix(ds, (n - 3) as nat);
        assert(comma_prefix(ds, (n - 2) as nat) == p3 + seq![','] + seq![ds[n - 3]]);
        assert(comma_prefix(ds, (n - 1) as nat) =~= p3 + seq![','] + seq![ds[n - 3]] + seq![ds[n - 2]]);
        assert(comma_prefix(ds, n) =~= p3 + seq![','] + seq![ds[n - 3], ds[n - 2], ds[n - 1]]);
        assert(ds.subrange(n - 3, n as int) =~= seq![ds[n - 3], ds[n - 2], ds[n - 1]]);
    }
}

/// Format an integer with thousands separators (e.g. 1234567 -> "1,234,567").
pub fn group_thousands(n: i64) -> (s: String)
    ensures
        s@ == thousands(n as int),
{
    let a = magnitude(n);
    let mut digits: Vec<char> = Vec::new();
    push_decimal_chars(&mut digits, a);
    assert(digits@ =~= decimal(a as nat));
    let len = digits.len();
    let mut out = String::new();
    if n < 0 {
        out.push('-');
    }
    let ghost lead = out@;
    let mut i: usize = 0;
    while i < len
        invariant
            len == digits@.len(),
            i <= len,
            out@ == lead + comma_prefix(digits@, i as nat),
        decreases len - i,
    {
        if i > 0 && (len - i) % 3 == 0 {
            out.push(',');
        }
        out.push(digits[i]);
        i = i + 1;
        proof {
            let j = (i - 1) as nat;
            let sep = if j > 0 && (digits@.len() - j) % 3 == 0 { seq![','] } else { seq![] };
            assert(comma_prefix(digits@, i as nat) == comma_prefix(digits@, j) + sep + seq![digits@[j as int]]);
            assert(out@ =~= lead + comma_prefix(digits@, i as nat));
        }
    }
    proof {
        lemma_comma_prefix_grouped(digits@);
        assert(out@ =~= thousands(n as int));
    }
    out
}

/// The divisor and suffix for a magnitude of at least a thousand.
pub open spec fn compact_scale(a: nat) -> (nat, char) {
    if a < 1_000_000 {
        (1000, 'K')
    } else if a < 1_000_000_000 {
        (1_000_000, 'M')
    } else {
        (1_000_000_000, 'B')
    }
}

/// Compact text for `n`: below a thousand the plain digits; otherwise the
/// binary64 quotient by a thousand, a million or a billion with one decimal
/// (as `{:.1}` prints it) and the suffix K, M or B. A minus sign leads when
/// `n` is negative.
pub open spec fn compact_text(n: int) -> Seq<char> {
    let a = (if n < 0 { -n } else { n }) as nat;
    let sign = if n < 0 { seq!['-'] } else { Seq::<char>::empty() };
    if a < 1000 {
        sign + decimal(a)
    } else {
        let t = f64_quotient_tenths(a, compact_scale(a).0);
        sign + decimal(t / 10) + seq!['.', digit_char(t % 10), compact_scale(a).1]
    }
}

/// Compact token counts for dense rows: 1_234 -> "1.2K", 4_300_000_000 -> "4.3B".
pub fn compact(n: i64) -> (s: String)
    ensures
        s@ == compact_text(n as int),
{
    let a = magnitude(n);
    let mut out = String::new();
    if n < 0 {
        out.push('-');
    }
    if a < 1000 {
        push_decimal(&mut out, a);
        proof {
            assert(out@ =~= compact_text(n as int));
        }
        return out;
    }
    let (d, suffix) = if a < 1_000_000 {
        (1000u64, 'K')
    } else if a < 1_000_000_000 {
        (1_000_000u64, 'M')
    } else {
        (1_000_000_000u64, 'B')
    };
    let t = quotient_tenths(a, d);
    push_decimal(&mut out, t / 10);
    out.push('.');
    out.push(digit(t % 10));
    out.push(suffix);
    proof {
        assert(out@ =~= compact_text(n as int));
    }
    out
}

pub open spec fn not_comma(c: char) -> bool {
    c != ','
}

proof fn lemma_decimal_has_no_comma(n: nat)
    ensures
        forall|i: int| 0 <= i < decimal(n).len() ==> #[trigger] decimal(n)[i] != ',',
        forall|i: int| 0 <= i < decimal(n).len() ==> '0' <= #[trigger] decimal(n)[i] <= '9',
        decimal(n).len() > 0,
    decreases n,
{
    if n >= 10 {
        lemma_decimal_has_no_comma(n / 10);
    }
}

proof fn lemma_filter_keeps_all(s: Seq<char>)
    requires
        forall|i: int| 0 <= i < s.len() ==> #[trigger] s[i] != ',',
    ensures
        s.filter(|c: char| not_comma(c)) == s,
    decreases s.len(),
{
    reveal(Seq::filter);
    if s.len() > 0 {
        let q = s.drop_last();
        assert forall|i: int| 0 <= i < q.len() implies #[trigger] q[i] != ',' by {
            assert(q[i] == s[i]);
        }
        lemma_filter_keeps_all(q);
        assert(s =~= q.push(s.last()));
    }
}

proof fn lemma_grouped_digits(ds: Seq<char>)
    requires
        forall|i: int| 0 <= i < ds.len() ==> #[trigger] ds[i] != ',',
    ensures
        grouped(ds).filter(|c: char| not_comma(c)) == ds,
    decreases ds.len(),
{
    let p = |c: char| not_comma(c);
    if ds.len() <= 3 {
        lemma_filter_keeps_all(ds);
    } else {
        let head = ds.subrange(0, ds.len() - 3);
        let tail = ds.subrange(ds.len() - 3, ds.len() as int);
        assert forall|i: int| 0 <= i < head.len() implies #[trigger] head[i] != ',' by {
            assert(head[i] == ds[i]);
        }
        assert forall|i: int| 0 <= i < tail.len() implies #[trigger] tail[i] != ',' by {
            assert(tail[i] == ds[ds.len() - 3 + i]);
        }
        lemma_grouped_digits(head);
        lemma_filter_keeps_all(tail);
        Seq::filter_distributes_over_add(grouped(head) + seq![','], tail, p);
        Seq::filter_distributes_over_add(grouped(head), seq![','], p);
        assert(seq![','].filter(p) =~= Seq::<char>::empty()) by {
            assert(Seq::<char>::empty().filter(p) =~= Seq::<char>::empty()) by {
                reveal(Seq::filter);
            }
            Seq::<char>::empty().lemma_filter_push(',', p);
            assert(Seq::<char>::empty().push(',') =~= seq![',']);
        }
        assert(head + tail =~= ds);
    }
}

/// Separators change nothing but the layout: dropping the commas from
/// `group_thousands(n)` leaves exactly the digits (and sign) of `n`.
pub proof fn lemma_thousands_keeps_digits(n: int)
    ensures
        thousands(n).filter(|c: char| not_comma(c)) == signed_decimal(n),
{
    let p = |c: char| not_comma(c);
    let a = (if n < 0 { -n } else { n }) as nat;
    lemma_decimal_has_no_comma(a);
    lemma_grouped_digits(decimal(a));
    if n < 0 {
        Seq::filter_distributes_over_add(seq!['-'], grouped(decimal(a)), p);
        assert(seq!['-'].filter(p) =~= seq!['-']) by {
            assert(Seq::<char>::empty().filter(p) =~= Seq::<char>::empty()) by {
                reveal(Seq::filter);
            }
            Seq::<char>::empty().lemma_filter_push('-', p);
            assert(Seq::<char>::empty().push('-') =~= seq!['-']);
        }
    }
}

/// A magnitude below a thousand shows without separators.
pub proof fn lemma_small_numbers_ungrouped(n: int)
    requires
        -1000 < n < 1000,
    ensures
        thousands(n) == signed_decimal(n),
{
    let a = (if n < 0 { -n } else { n }) as nat;
    if a >= 100 {
        assert(decimal(a) =~= decimal(a / 10).push(digit_char(a % 10)));
        assert(decimal(a / 10) =~= decimal(a / 100).push(digit_char((a / 10) % 10)));
    } else if a >= 10 {
        assert(decimal(a) =~= decimal(a / 10).push(digit_char(a % 10)));
    }
}

/// The compact text of a negative number is the text of its magnitude after
/// a minus sign.
pub proof fn lemma_compact_sign_symmetry(n: int)
    requires
        n > 0,
    ensures
        compact_text(-n) == seq!['-'] + compact_text(n),
{
    if n < 1000 {
        assert(compact_text(-n) =~= seq!['-'] + compact_text(n));
    } else {
        assert(compact_text(-n) =~= seq!['-'] + compact_text(n));
    }
}

/// Within one suffix (K, M or B), a larger magnitude never shows a smaller
/// number: the tenths `compact` prints grow with the count.
pub proof fn lemma_compact_monotone(a: nat, b: nat)
    requires
        1000 <= a <= b,
        compact_scale(a) == compact_scale(b),
    ensures
        f64_quotient_tenths(a, compact_scale(a).0) <= f64_quotient_tenths(b, compact_scale(b).0),
{
    lemma_quotient_tenths_monotone(a, b, compact_scale(a).0);
}

/// Digits missing from a full leading group of three when there are `len`
/// digits: 0, 2 or 1.
pub open spec fn lead_gap(len: int) -> int {
    (3 - len % 3) % 3
}

/// Where digit `j` of `len` digits lands once separators are placed.
pub open spec fn digit_slot(len: int, j: int) -> int {
    j + (j + lead_gap(len)) / 3
}

proof fn lemma_comma_prefix_layout(ds: Seq<char>, i: nat)
    requires
        i <= ds.len(),
    ensures
        comma_prefix(ds, i).len() == if i == 0 {
            0
        } else {
            i + (i - 1 + lead_gap(ds.len() as int)) / 3
        },
        forall|j: int| 0 <= j < i ==> comma_prefix(ds, i)[#[trigger] digit_slot(ds.len() as int, j)] == ds[j],
        forall|j: int|
            0 < j < i && (ds.len() - j) % 3 == 0 ==> comma_prefix(ds, i)[#[trigger] digit_slot(ds.len() as int, j)
                - 1] == ',',
    decreases i,
{
    let len = ds.len() as int;
    let r = lead_gap(len);
    if i > 0 {
        let k = (i - 1) as nat;
        lemma_comma_prefix_layout(ds, k);
        let prev = comma_prefix(ds, k);
        let sep = if k > 0 && (ds.len() - k) % 3 == 0 { seq![','] } else { seq![] };
        let cur = comma_prefix(ds, i);
        assert(cur == prev + sep + seq![ds[k as int]]);
        assert(((len - k) % 3 == 0) == ((k + r) % 3 == 0));
        if k == 0 {
            assert(r / 3 == 0);
        } else {
            assert((k - 1 + r) / 3 + (if (k + r) % 3 == 0 { 1int } else { 0 }) == (k + r) / 3);
        }
        assert(prev.len() + sep.len() == digit_slot(len, k as int));
        assert forall|j: int| 0 <= j < i implies cur[#[trigger] digit_slot(len, j)] == ds[j] by {
            if j < k {
                assert(digit_slot(len, j) < prev.len()) by {
                    assert(j + (j + r) / 3 <= (k - 1) + (k - 1 + r) / 3);
                }
            }
        }
        assert forall|j: int|
            0 < j < i && (ds.len() - j) % 3 == 0 implies cur[#[trigger] digit_slot(len, j) - 1] == ',' by {
            if j < k {
                assert(digit_slot(len, j) < prev.len()) by {
                    assert(j + (j + r) / 3 <= (k - 1) + (k - 1 + r) / 3);
                }
            }
        }
    }
}

/// Where the digits and separators of `group_thousands(n)` stand. After the
/// sign (a '-' exactly when `n` is negative), with `ds` the digits of `|n|`:
/// digit `j` sits at `digit_slot(ds.len(), j)`, a comma stands right before
/// digit `j` (for `0 < j`) exactly when a multiple of three digits follows
/// it, and the text holds nothing else.
pub proof fn lemma_thousands_layout(n: int)
    ensures
        ({
            let ds = decimal((if n < 0 { -n } else { n }) as nat);
            let len = ds.len() as int;
            let body = if n < 0 { thousands(n).drop_first() } else { thousands(n) };
            &&& thousands(n).len() > 0
            &&& (thousands(n)[0] == '-') == (n < 0)
            &&& body.len() == len + (len - 1 + lead_gap(len)) / 3
            &&& forall|j: int| 0 <= j < len ==> body[#[trigger] digit_slot(len, j)] == ds[j]
            &&& forall|j: int|
                0 < j < len && (len - j) % 3 == 0 ==> body[#[trigger] digit_slot(len, j) - 1] == ','
            &&& forall|j: int|
                0 < j < len && (len - j) % 3 != 0 ==> body[#[trigger] digit_slot(len, j) - 1] != ','
        }),
{
    let a = (if n < 0 { -n } else { n }) as nat;
    let ds = decimal(a);
    let len = ds.len() as int;
    lemma_decimal_has_no_comma(a);
    lemma_comma_prefix_grouped(ds);
    lemma_comma_prefix_layout(ds, ds.len());
    let body = if n < 0 { thousands(n).drop_first() } else { thousands(n) };
    assert(body == grouped(ds)) by {
        if n < 0 {
            assert((seq!['-'] + grouped(ds)).drop_first() =~= grouped(ds));
        }
    }
    assert forall|j: int|
        0 < j < len && (len - j) % 3 != 0 implies body[#[trigger] digit_slot(len, j) - 1] != ',' by {
        let r = lead_gap(len);
        assert(digit_slot(len, j) - 1 == digit_slot(len, j - 1)) by {
            assert(((len - j) % 3 == 0) == ((j + r) % 3 == 0));
            assert((j - 1 + r) / 3 == (j + r) / 3);
        }
    }
    let k0 = digit_slot(len, 0);
    assert(body[k0] == ds[0]);
    assert(k0 == 0);
    assert('0' <= ds[0] <= '9');
    if n < 0 {
        assert(thousands(n)[0] == '-');
    } else {
        assert(thousands(n)[0] == ds[0]);
    }
}

} // verus!
