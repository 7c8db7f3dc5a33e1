//! Stable descending ordering of report rows by a key: the busiest or most
//! recent first, rows with equal keys kept in report order.

use vstd::prelude::*;

verus! {

/// `below` is a strict weak order: irreflexive, transitive, and its
/// negation ("not below") is transitive as well.
pub open spec fn strict_weak_order<A>(below: spec_fn(A, A) -> bool) -> bool {
    &&& forall|a: A| !#[trigger] below(a, a)
    &&& forall|a: A, b: A, c: A| #[trigger] below(a, b) && #[trigger] below(b, c) ==> below(a, c)
    &&& forall|a: A, b: A, c: A|
        #![trigger below(a, b), below(b, c)]
        !below(a, b) && !below(b, c) ==> !below(a, c)
}

/// A key that rows are ranked by, through its view `key` and a strict weak
/// order on views.
pub trait RankKey: Sized {
    type Key;

    spec fn key(&self) -> Self::Key;

    spec fn order() -> spec_fn(Self::Key, Self::Key) -> bool;

    fn below(&self, other: &Self) -> (r: bool)
        ensures
            r == (Self::order())(self.key(), other.key()),
    ;

    proof fn lemma_order()
        ensures
            strict_weak_order(Self::order()),
    ;
}

impl RankKey for i64 {
    type Key = int;

    open spec fn key(&self) -> int {
        *self as int
    }

    open spec fn order() -> spec_fn(int, int) -> bool {
        |a: int, b: int| a < b
    }

    fn below(&self, other: &Self) -> (r: bool) {
        *self < *other
    }

    proof fn lemma_order() {
    }
}

/// Lexicographic order of texts by character code (the order in which
/// `String`'s UTF-8 bytes compare).
pub open spec fn text_below(a: Seq<char>, b: Seq<char>) -> bool
    decreases a.len(),
{
    if b.len() == 0 {
        false
    } else if a.len() == 0 {
        true
    } else if a[0] != b[0] {
        (a[0] as int) < (b[0] as int)
    } else {
        text_below(a.drop_first(), b.drop_first())
    }
}

proof fn lemma_text_irreflexive(a: Seq<char>)
    ensures
        !text_below(a, a),
    decreases a.len(),
{
    if a.len() > 0 {
        lemma_text_irreflexive(a.drop_first());
    }
}

proof fn lemma_text_transitive(a: Seq<char>, b: Seq<char>, c: Seq<char>)
    requires
        text_below(a, b),
        text_below(b, c),
    ensures
        text_below(a, c),
    decreases a.len(),
{
    if a.len() > 0 && a[0] == b[0] && b[0] == c[0] {
        lemma_text_transitive(a.drop_first(), b.drop_first(), c.drop_first());
    }
}

proof fn lemma_text_total(a: Seq<char>, b: Seq<char>)
    ensures
        text_below(a, b) || text_below(b, a) || a == b,
    decreases a.len(),
{
    if a.len() == 0 {
        if b.len() == 0 {
            assert(a =~= b);
        }
    } else if b.len() > 0 {
        if a[0] == b[0] {
            lemma_text_total(a.drop_first(), b.drop_first());
            if a.drop_first() == b.drop_first() {
                assert(a =~= seq![a[0]] + a.drop_first());
                assert(b =~= seq![b[0]] + b.drop_first());
            }
        } else {
            assert((a[0] as int) != (b[0] as int));
        }
    }
}

impl RankKey for String {
    type Key = Seq<char>;

    open spec fn key(&self) -> Seq<char> {
        self@
    }

    open spec fn order() -> spec_fn(Seq<char>, Seq<char>) -> bool {
        |a: Seq<char>, b: Seq<char>| text_below(a, b)
    }

    fn below(&self, other: &Self) -> (r: bool) {
        let a = self.as_str();
        let b = other.as_str();
        let na = a.unicode_len();
        let nb = b.unicode_len();
        let mut i: usize = 0;
        assert(self@.skip(0) =~= self@);
        assert(other@.skip(0) =~= other@);
        while i < na && i < nb && a.get_char(i) == b.get_char(i)
            invariant
                i <= na,
                i <= nb,
                na == self@.len(),
                nb == other@.len(),
                a@ == self@,
                b@ == other@,
                text_below(self@, other@) == text_below(self@.skip(i as int), other@.skip(i as int)),
            decreases na - i,
        {
            assert(self@.skip(i as int).drop_first() =~= self@.skip(i + 1));
            assert(other@.skip(i as int).drop_first() =~= other@.skip(i + 1));
            i = i + 1;
        }
        if i == nb {
            false
        } else if i == na {
            true
        } else {
            a.get_char(i) < b.get_char(i)
        }
    }

    proof fn lemma_order() {
        let below = Self::order();
        assert forall|a: Seq<char>| !#[trigger] below(a, a) by {
            lemma_text_irreflexive(a);
        }
        assert forall|a: Seq<char>, b: Seq<char>, c: Seq<char>|
            #[trigger] below(a, b) && #[trigger] below(b, c) implies below(a, c) by {
            lemma_text_transitive(a, b, c);
        }
        assert forall|a: Seq<char>, b: Seq<char>, c: Seq<char>|
            #![trigger below(a, b), below(b, c)]
            !below(a, b) && !below(b, c) implies !below(a, c) by {
            lemma_text_total(a, b);
            lemma_text_total(b, c);
            if a != b && b != c && text_below(a, c) {
                lemma_text_transitive(c, b, a);
                lemma_text_transitive(a, c, a);
                lemma_text_irreflexive(a);
            }
        }
    }
}

/// Place `x` after the last entry of `s` that does not rank below it; in a
/// descending `s` that keeps `x` after every entry with an equal key.
pub open spec fn ranked_insert<A, B>(s: Seq<(A, B)>, x: (A, B), below: spec_fn(A, A) -> bool) -> Seq<(A, B)>
    decreases s.len(),
{
    if s.len() == 0 {
        seq![x]
    } else if !below(s.last().0, x.0) {
        s.push(x)
    } else {
        ranked_insert(s.drop_last(), x, below).push(s.last())
    }
}

/// The entries of `s` in descending key order, entries with equal keys in
/// the order of `s` (a stable sort).
pub open spec fn ranked<A, B>(s: Seq<(A, B)>, below: spec_fn(A, A) -> bool) -> Seq<(A, B)>
    decreases s.len(),
{
    if s.len() == 0 {
        s
    } else {
        ranked_insert(ranked(s.drop_last(), below), s.last(), below)
    }
}

/// Rows with their keys, both taken by their views.
pub open spec fn viewed<K: RankKey, T: View>(s: Seq<(K, T)>) -> Seq<(K::Key, T::V)> {
    s.map_values(|x: (K, T)| (x.0.key(), x.1@))
}

proof fn lemma_insert_at<A, B>(s: Seq<(A, B)>, x: (A, B), p: int, below: spec_fn(A, A) -> bool)
    requires
        0 <= p <= s.len(),
        forall|j: int| p <= j < s.len() ==> below((#[trigger] s[j]).0, x.0),
        p == 0 || !below(s[p - 1].0, x.0),
    ensures
        ranked_insert(s, x, below) == s.insert(p, x),
    decreases s.len(),
{
    if s.len() == 0 {
        assert(s.insert(p, x) =~= seq![x]);
    } else if p == s.len() {
        assert(s.insert(p, x) =~= s.push(x));
    } else {
        let q = s.drop_last();
        assert forall|j: int| p <= j < q.len() implies below((#[trigger] q[j]).0, x.0) by {
            assert(q[j] == s[j]);
        }
        lemma_insert_at(q, x, p, below);
        assert(s.last() == s[s.len() - 1]);
        assert(s.insert(p, x) =~= q.insert(p, x).push(s.last()));
    }
}

/// Order `items` by descending key, stably.
pub fn rank_descending<K: RankKey, T: View>(items: Vec<(K, T)>) -> (out: Vec<(K, T)>)
    ensures
        viewed(out@) == ranked(viewed(items@), K::order()),
{
    let ghost orig = viewed(items@);
    let ghost below = K::order();
    let mut items = items;
    let mut out: Vec<(K, T)> = Vec::new();
    let ghost mut k: int = 0;
    while items.len() > 0
        invariant
            0 <= k <= orig.len(),
            viewed(items@) == orig.skip(k),
            viewed(out@) == ranked(orig.take(k), below),
            below == K::order(),
        decreases items@.len(),
    {
        let ghost before = items@;
        assert(viewed(before).len() == before.len());
        assert(k < orig.len());
        let x = items.remove(0);
        let ghost vx = (x.0.key(), x.1@);
        assert(viewed(before)[0] == vx);
        assert(orig.take(k + 1).drop_last() =~= orig.take(k));
        assert(orig.take(k + 1).last() == orig[k]);
        assert(orig[k] == vx);
        let mut p = out.len();
        while p > 0 && out[p - 1].0.below(&x.0)
            invariant
                p <= out@.len(),
                below == K::order(),
                forall|j: int| p <= j < out@.len() ==> below((#[trigger] out@[j]).0.key(), x.0.key()),
            decreases p,
        {
            p = p - 1;
        }
        let ghost vout = viewed(out@);
        proof {
            assert forall|j: int| p <= j < vout.len() implies below((#[trigger] vout[j]).0, vx.0) by {
                assert(vout[j] == (out@[j].0.key(), out@[j].1@));
            }
            if p > 0 {
                assert(vout[p - 1] == (out@[p - 1].0.key(), out@[p - 1].1@));
            }
            lemma_insert_at(vout, vx, p as int, below);
        }
        out.insert(p, x);
        proof {
            k = k + 1;
            assert(viewed(out@) =~= vout.insert(p as int, vx));
            assert forall|j: int| 0 <= j < viewed(items@).len() implies #[trigger] viewed(items@)[j] == orig.skip(k)[j] by {
                assert(items@[j] == before[j + 1]);
                assert(viewed(before)[j + 1] == orig.skip(k - 1)[j + 1]);
            }
            assert(viewed(items@) =~= orig.skip(k));
        }
    }
    assert(orig.take(k) =~= orig);
    out
}

/// No entry ranks below a later one.
pub open spec fn descending<A, B>(s: Seq<(A, B)>, below: spec_fn(A, A) -> bool) -> bool {
    forall|i: int, j: int| 0 <= i < j < s.len() ==> !below((#[trigger] s[i]).0, (#[trigger] s[j]).0)
}

/// The entries whose key ranks neither below nor above `k`.
pub open spec fn rank_class<A, B>(k: A, below: spec_fn(A, A) -> bool) -> spec_fn((A, B)) -> bool {
    |y: (A, B)| !below(y.0, k) && !below(k, y.0)
}

proof fn lemma_insert_members<A, B>(s: Seq<(A, B)>, x: (A, B), below: spec_fn(A, A) -> bool)
    ensures
        forall|y: (A, B)| #[trigger] ranked_insert(s, x, below).contains(y) ==> y == x || s.contains(y),
        ranked_insert(s, x, below).len() == s.len() + 1,
    decreases s.len(),
{
    let t = ranked_insert(s, x, below);
    if s.len() > 0 && below(s.last().0, x.0) {
        let q = s.drop_last();
        lemma_insert_members(q, x, below);
        let r = ranked_insert(q, x, below);
        assert forall|y: (A, B)| #[trigger] ranked_insert(s, x, below).contains(y) implies y == x || s.contains(y) by {
            let i = choose|i: int| 0 <= i < t.len() && t[i] == y;
            if i < r.len() {
                assert(r[i] == y);
                assert(r.contains(y));
                if y != x {
                    assert(q.contains(y));
                    let j = choose|j: int| 0 <= j < q.len() && q[j] == y;
                    assert(q[j] == s[j]);
                    assert(s.contains(y));
                }
            } else {
                assert(s[s.len() - 1] == y);
                assert(s.contains(y));
            }
        }
    } else if s.len() > 0 {
        assert forall|y: (A, B)| #[trigger] ranked_insert(s, x, below).contains(y) implies y == x || s.contains(y) by {
            let i = choose|i: int| 0 <= i < t.len() && t[i] == y;
            if i < s.len() {
                assert(s[i] == y);
            }
        }
    } else {
        assert forall|y: (A, B)| #[trigger] ranked_insert(s, x, below).contains(y) implies y == x || s.contains(y) by {
            let i = choose|i: int| 0 <= i < t.len() && t[i] == y;
            assert(i == 0);
        }
    }
}

proof fn lemma_insert_descending<A, B>(s: Seq<(A, B)>, x: (A, B), below: spec_fn(A, A) -> bool)
    requires
        strict_weak_order(below),
        descending(s, below),
    ensures
        descending(ranked_insert(s, x, below), below),
    decreases s.len(),
{
    if s.len() == 0 {
    } else if !below(s.last().0, x.0) {
        let r = s.push(x);
        assert forall|i: int, j: int| 0 <= i < j < r.len() implies !below((#[trigger] r[i]).0, (#[trigger] r[j]).0) by {
            if j == s.len() {
                if i < s.len() - 1 {
                    assert(!below(s[i].0, s[s.len() - 1].0));
                }
                assert(!below(s[i].0, s.last().0) && !below(s.last().0, x.0));
            } else {
                assert(r[i] == s[i] && r[j] == s[j]);
            }
        }
    } else {
        let q = s.drop_last();
        assert forall|i: int, j: int| 0 <= i < j < q.len() implies !below((#[trigger] q[i]).0, (#[trigger] q[j]).0) by {
            assert(q[i] == s[i] && q[j] == s[j]);
        }
        lemma_insert_descending(q, x, below);
        lemma_insert_members(q, x, below);
        let t = ranked_insert(q, x, below);
        let r = t.push(s.last());
        assert forall|i: int, j: int| 0 <= i < j < r.len() implies !below((#[trigger] r[i]).0, (#[trigger] r[j]).0) by {
            if j == t.len() {
                assert(t.contains(t[i]));
                if t[i] == x {
                    if below(x.0, s.last().0) {
                        assert(below(x.0, x.0));
                    }
                } else {
                    assert(q.contains(t[i]));
                    let m = choose|m: int| 0 <= m < q.len() && q[m] == t[i];
                    assert(q[m] == s[m]);
                    assert(!below(s[m].0, s[s.len() - 1].0));
                }
            } else {
                assert(r[i] == t[i] && r[j] == t[j]);
            }
        }
    }
}

/// Ranked entries are in descending key order.
pub proof fn lemma_ranked_descending<A, B>(s: Seq<(A, B)>, below: spec_fn(A, A) -> bool)
    requires
        strict_weak_order(below),
    ensures
        descending(ranked(s, below), below),
    decreases s.len(),
{
    if s.len() > 0 {
        lemma_ranked_descending(s.drop_last(), below);
        lemma_insert_descending(ranked(s.drop_last(), below), s.last(), below);
    }
}

proof fn lemma_insert_multiset<A, B>(s: Seq<(A, B)>, x: (A, B), below: spec_fn(A, A) -> bool)
    ensures
        ranked_insert(s, x, below).to_multiset() =~= s.to_multiset().insert(x),
    decreases s.len(),
{
    broadcast use vstd::seq_lib::group_to_multiset_ensures;

    if s.len() > 0 {
        let q = s.drop_last();
        assert(s =~= q.push(s.last()));
        if below(s.last().0, x.0) {
            lemma_insert_multiset(q, x, below);
        }
    }
}

/// Ranking keeps exactly the entries it was given, each as often.
pub proof fn lemma_ranked_permutation<A, B>(s: Seq<(A, B)>, below: spec_fn(A, A) -> bool)
    ensures
        ranked(s, below).to_multiset() =~= s.to_multiset(),
    decreases s.len(),
{
    broadcast use vstd::seq_lib::group_to_multiset_ensures;

    if s.len() > 0 {
        lemma_ranked_permutation(s.drop_last(), below);
        lemma_insert_multiset(ranked(s.drop_last(), below), s.last(), below);
        assert(s =~= s.drop_last().push(s.last()));
    }
}

proof fn lemma_insert_filter<A, B>(s: Seq<(A, B)>, x: (A, B), k: A, below: spec_fn(A, A) -> bool)
    requires
        strict_weak_order(below),
        descending(s, below),
    ensures
        ranked_insert(s, x, below).filter(rank_class::<A, B>(k, below)) == if rank_class::<A, B>(k, below)(x) {
            s.filter(rank_class::<A, B>(k, below)).push(x)
        } else {
            s.filter(rank_class::<A, B>(k, below))
        },
    decreases s.len(),
{
    broadcast use Seq::lemma_filter_push;

    let p = rank_class::<A, B>(k, below);
    if s.len() == 0 {
        assert(seq![x] =~= Seq::<(A, B)>::empty().push(x));
        assert(Seq::<(A, B)>::empty().filter(p) =~= Seq::<(A, B)>::empty()) by {
            reveal(Seq::filter);
        }
    } else if below(s.last().0, x.0) {
        let q = s.drop_last();
        assert(s =~= q.push(s.last()));
        assert forall|i: int, j: int| 0 <= i < j < q.len() implies !below((#[trigger] q[i]).0, (#[trigger] q[j]).0) by {
            assert(q[i] == s[i] && q[j] == s[j]);
        }
        lemma_insert_filter(q, x, k, below);
        if p(x) && p(s.last()) {
            assert(!below(s.last().0, k) && !below(k, x.0));
        }
    }
}

/// Ranking is stable: the entries of any one rank keep the order they were
/// given in.
pub proof fn lemma_ranked_stable<A, B>(s: Seq<(A, B)>, k: A, below: spec_fn(A, A) -> bool)
    requires
        strict_weak_order(below),
    ensures
        ranked(s, below).filter(rank_class::<A, B>(k, below)) == s.filter(rank_class::<A, B>(k, below)),
    decreases s.len(),
{
    broadcast use Seq::lemma_filter_push;

    if s.len() > 0 {
        lemma_ranked_stable(s.drop_last(), k, below);
        lemma_ranked_descending(s.drop_last(), below);
        lemma_insert_filter(ranked(s.drop_last(), below), s.last(), k, below);
        assert(s =~= s.drop_last().push(s.last()));
    }
}

/// Ranking `i64` keys compares them as numbers: one key ranks below
/// another exactly when it is the smaller integer.
pub proof fn lemma_i64_rank_is_numeric(a: i64, b: i64)
    ensures
        (<i64 as RankKey>::order())(a.key(), b.key()) <==> a < b,
        (<i64 as RankKey>::order())(a as int, b as int) <==> a < b,
{
}

/// The text order is the lexicographic order by character code: `a` ranks
/// below `b` exactly when they agree up to some index `i` and there either
/// `a` ends while `b` goes on, or `a` has the smaller character.
pub proof fn lemma_text_below_is_lexicographic(a: Seq<char>, b: Seq<char>)
    ensures
        text_below(a, b) <==> exists|i: int|
            0 <= i <= a.len() && i <= b.len() && #[trigger] a.take(i) == b.take(i) && ((i == a.len()
                && i < b.len()) || (i < a.len() && i < b.len() && (a[i] as int) < (b[i] as int))),
    decreases a.len(),
{
    if b.len() == 0 {
        assert forall|i: int|
            0 <= i <= a.len() && i <= b.len() && #[trigger] a.take(i) == b.take(i) implies !((i == a.len()
                && i < b.len()) || (i < a.len() && i < b.len() && (a[i] as int) < (b[i] as int))) by {
        }
    } else if a.len() == 0 {
        assert(a.take(0) =~= b.take(0));
    } else if a[0] != b[0] {
        assert(a.take(0) =~= b.take(0));
        assert forall|i: int|
            0 <= i <= a.len() && i <= b.len() && #[trigger] a.take(i) == b.take(i) && ((i == a.len() && i
                < b.len()) || (i < a.len() && i < b.len() && (a[i] as int) < (b[i] as int))) implies i == 0 by {
            if i > 0 {
                assert(a.take(i)[0] == b.take(i)[0]);
            }
        }
    } else {
        let a1 = a.drop_first();
        let b1 = b.drop_first();
        lemma_text_below_is_lexicographic(a1, b1);
        if text_below(a, b) {
            let j = choose|j: int|
                0 <= j <= a1.len() && j <= b1.len() && #[trigger] a1.take(j) == b1.take(j) && ((j == a1.len()
                    && j < b1.len()) || (j < a1.len() && j < b1.len() && (a1[j] as int) < (b1[j] as int)));
            assert(a.take(j + 1) =~= seq![a[0]] + a1.take(j));
            assert(b.take(j + 1) =~= seq![b[0]] + b1.take(j));
            assert(a.take(j + 1) == b.take(j + 1));
        }
        if exists|i: int|
            0 <= i <= a.len() && i <= b.len() && #[trigger] a.take(i) == b.take(i) && ((i == a.len() && i
                < b.len()) || (i < a.len() && i < b.len() && (a[i] as int) < (b[i] as int))) {
            let i = choose|i: int|
                0 <= i <= a.len() && i <= b.len() && #[trigger] a.take(i) == b.take(i) && ((i == a.len() && i
                    < b.len()) || (i < a.len() && i < b.len() && (a[i] as int) < (b[i] as int)));
            assert(i >= 1);
            assert(a1.take(i - 1) =~= a.take(i).drop_first());
            assert(b1.take(i - 1) =~= b.take(i).drop_first());
            assert(a1.take(i - 1) == b1.take(i - 1));
            if i < a.len() && i < b.len() {
                assert(a1[i - 1] == a[i] && b1[i - 1] == b[i]);
            }
        }
    }
}

} // verus!
