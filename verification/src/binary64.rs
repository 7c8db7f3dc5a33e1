//! Exact integer model of the binary64 arithmetic behind the compact number
//! format: an integer converted with `as f64`, divided by a power of ten, and
//! printed with one decimal (`{:.1}`). Every rounding step is round-to-nearest
//! with ties to even, which is what the conversion, the division and the
//! formatter each do.

use vstd::prelude::*;

verus! {

/// 2^52: the least value of a normalised binary64 significand.
pub open spec fn significand_floor() -> nat {
    4503599627370496
}

/// 2^53: one past the greatest binary64 significand.
pub open spec fn significand_limit() -> nat {
    9007199254740992
}

pub open spec fn pow2(n: nat) -> nat
    decreases n,
{
    if n == 0 {
        1
    } else {
        2 * pow2((n - 1) as nat)
    }
}

/// `n / d` rounded to the nearest integer, ties to the even neighbour.
pub open spec fn div_round_even(n: nat, d: nat) -> nat {
    let q = n / d;
    let r = n % d;
    if 2 * r < d {
        q
    } else if 2 * r > d {
        q + 1
    } else if q % 2 == 0 {
        q
    } else {
        q + 1
    }
}

/// How many low bits of `a` do not fit in a 53-bit significand.
pub open spec fn excess_bits(a: nat) -> nat
    decreases a,
{
    if a < significand_limit() {
        0
    } else {
        1 + excess_bits(a / 2)
    }
}

/// The exact value of `a as f64` for a non-negative integer `a`.
pub open spec fn f64_of(a: nat) -> nat {
    let k = excess_bits(a);
    div_round_even(a, pow2(k)) * pow2(k)
}

/// The least `s` (at most 52) with `x * 2^s >= 2^52 * d`: scaling `x / d` by
/// `2^s` puts it in the significand range.
pub open spec fn binade_shift(x: nat, d: nat, s: nat) -> nat
    decreases 52 - s,
{
    if s >= 52 || x * pow2(s) >= significand_floor() * d {
        s
    } else {
        binade_shift(x, d, s + 1)
    }
}

/// The value of `(a as f64) / (d as f64)` printed with `{:.1}`, in tenths:
/// the binary64 quotient is `m / 2^s`, and the formatter rounds `10 m / 2^s`
/// to an integer, ties to even.
pub open spec fn f64_quotient_tenths(a: nat, d: nat) -> nat {
    let x = f64_of(a);
    let s = binade_shift(x, d, 0);
    let m = div_round_even(x * pow2(s), d);
    div_round_even(10 * m, pow2(s))
}

proof fn lemma_div_round_even_bounds(n: nat, d: nat)
    requires
        d > 0,
    ensures
        n / d <= div_round_even(n, d) <= n / d + 1,
        (n / d) * d <= n,
        n < (n / d + 1) * d,
{
    assert((n / d) * d + n % d == n) by (nonlinear_arith)
        requires
            d > 0,
    ;
    assert(n % d < d) by (nonlinear_arith)
        requires
            d > 0,
    ;
    assert((n / d + 1) * d == (n / d) * d + d) by (nonlinear_arith);
}

fn round_even(n: u128, d: u128) -> (r: u128)
    requires
        d > 0,
        d < 0x1_0000_0000_0000_0000_0000_0000u128,
        n < 0x1_0000_0000_0000_0000_0000_0000_0000u128,
    ensures
        r == div_round_even(n as nat, d as nat),
{
    let q = n / d;
    let rem = n % d;
    proof {
        lemma_div_round_even_bounds(n as nat, d as nat);
    }
    if 2 * rem < d {
        q
    } else if 2 * rem > d {
        q + 1
    } else if q % 2 == 0 {
        q
    } else {
        q + 1
    }
}

proof fn lemma_pow2_exceeds(n: nat)
    ensures
        pow2(n) > n,
    decreases n,
{
    if n > 0 {
        lemma_pow2_exceeds((n - 1) as nat);
    }
}

proof fn lemma_pow2_pos(n: nat)
    ensures
        pow2(n) >= 1,
    decreases n,
{
    if n > 0 {
        lemma_pow2_pos((n - 1) as nat);
    }
}

/// The value of `a as f64`, for `a` at most 2^63.
fn f64_value(a: u64) -> (x: u128)
    requires
        a <= 0x8000_0000_0000_0000u64,
    ensures
        x == f64_of(a as nat),
        x <= a + 2048,
{
    let mut b: u64 = a;
    let mut k: u64 = 0;
    let mut p: u64 = 1;
    while b >= 9007199254740992u64
        invariant
            excess_bits(a as nat) == k + excess_bits(b as nat),
            p == pow2(k as nat),
            b * p <= a,
            a < (b + 1) * p,
            a <= 0x8000_0000_0000_0000u64,
            k < p,
            p <= 2048,
        decreases b,
    {
        assert(b * p <= a);
        assert(p <= 1024) by (nonlinear_arith)
            requires
                b >= 9007199254740992,
                b * p <= a,
                a <= 0x8000_0000_0000_0000u64,
        ;
        let ghost b0 = b;
        let ghost p0 = p;
        b = b / 2;
        p = p * 2;
        k = k + 1;
        assert(b * p <= a) by (nonlinear_arith)
            requires
                b == b0 / 2,
                p == p0 * 2,
                b0 * p0 <= a,
        ;
        assert(a < (b + 1) * p) by (nonlinear_arith)
            requires
                b == b0 / 2,
                p == p0 * 2,
                a < (b0 + 1) * p0,
        ;
        proof {
            lemma_pow2_exceeds(k as nat);
        }
    }
    assert(excess_bits(b as nat) == 0);
    proof {
        lemma_pow2_pos(k as nat);
        lemma_div_round_even_bounds(a as nat, p as nat);
    }
    let r = round_even(a as u128, p as u128);
    assert(r * p <= 0x1_0000_0000_0000_0000_0000u128) by (nonlinear_arith)
        requires
            r <= a / p + 1,
            (a / p) * p <= a,
            p <= 2048,
            a <= 0x8000_0000_0000_0000u64,
    ;
    let x = r * (p as u128);
    assert(x <= a + 2048) by (nonlinear_arith)
        requires
            r <= a / p + 1,
            (a / p) * p <= a,
            x == r * p,
            p <= 2048,
    ;
    x
}

proof fn lemma_pow2_52()
    ensures
        pow2(52) == significand_floor(),
{
    reveal_with_fuel(pow2, 53);
}

/// Scale `x` by the least power of two `2^s` (s at most 52) that brings
/// `x / d` into the significand range; returns `(x * 2^s, 2^s, s)`.
fn scale_to_binade(x: u128, d: u64) -> (r: (u128, u128, u64))
    requires
        x <= 0x8000_0000_0000_0800u128,
        1000 <= d <= 1_000_000_000,
    ensures
        r.2 == binade_shift(x as nat, d as nat, 0),
        r.1 == pow2(r.2 as nat),
        r.0 == x * r.1,
        1 <= r.1 <= significand_floor(),
        r.2 == 0 ==> r.0 == x,
        r.2 != 0 ==> r.0 < 2 * significand_floor() * d,
{
    let dd = d as u128;
    let mut xs: u128 = x;
    let mut ps: u128 = 1;
    let mut s: u64 = 0;
    proof {
        lemma_pow2_52();
    }
    while s < 52 && xs < 4503599627370496u128 * dd
        invariant
            xs == x * ps,
            ps == pow2(s as nat),
            s <= 52,
            binade_shift(x as nat, d as nat, 0) == binade_shift(x as nat, d as nat, s as nat),
            x <= 0x8000_0000_0000_0800u128,
            s == 0 || xs < 2 * significand_floor() * d,
            dd == d,
            1000 <= d <= 1_000_000_000,
            ps * pow2((52 - s) as nat) == significand_floor(),
        decreases 52 - s,
    {
        let ghost xs0 = xs;
        let ghost ps0 = ps;
        assert(xs0 < significand_floor() * d);
        proof {
            lemma_pow2_pos((52 - s - 1) as nat);
            assert(pow2((52 - s) as nat) == 2 * pow2((52 - s - 1) as nat));
            assert(ps0 * pow2((52 - s - 1) as nat) <= significand_floor() / 2) by (nonlinear_arith)
                requires
                    ps0 * (2 * pow2((52 - s - 1) as nat)) == significand_floor(),
            ;
            assert(ps0 <= significand_floor() / 2) by (nonlinear_arith)
                requires
                    ps0 * pow2((52 - s - 1) as nat) <= significand_floor() / 2,
                    pow2((52 - s - 1) as nat) >= 1,
            ;
        }
        xs = xs * 2;
        ps = ps * 2;
        s = s + 1;
        assert(xs == x * ps) by (nonlinear_arith)
            requires
                xs0 == x * ps0,
                xs == xs0 * 2,
                ps == ps0 * 2,
        ;
        assert(xs < 2 * significand_floor() * d) by (nonlinear_arith)
            requires
                xs0 < significand_floor() * d,
                xs == xs0 * 2,
        ;
        assert(ps * pow2((52 - s) as nat) == significand_floor()) by (nonlinear_arith)
            requires
                ps0 * (2 * pow2((52 - s) as nat)) == significand_floor(),
                ps == ps0 * 2,
        ;
    }
    assert(binade_shift(x as nat, d as nat, s as nat) == s);
    proof {
        lemma_pow2_pos((52 - s) as nat);
        lemma_pow2_pos(s as nat);
    }
    assert(ps <= significand_floor()) by (nonlinear_arith)
        requires
            ps * pow2((52 - s) as nat) == significand_floor(),
            pow2((52 - s) as nat) >= 1,
    ;
    (xs, ps, s)
}

/// `(a as f64) / (d as f64)` printed with `{:.1}`, as a count of tenths.
pub fn quotient_tenths(a: u64, d: u64) -> (t: u64)
    requires
        1000 <= d <= 1_000_000_000,
        d <= a <= 0x8000_0000_0000_0000u64,
    ensures
        t == f64_quotient_tenths(a as nat, d as nat),
{
    let x = f64_value(a);
    let dd = d as u128;
    let (xs, ps, s) = scale_to_binade(x, d);
    if s != 0 {
        assert(xs < 0x1_0000_0000_0000_0000_0000_0000u128) by (nonlinear_arith)
            requires
                xs < 2 * significand_floor() * d,
                d <= 1_000_000_000,
        ;
    }
    let m = round_even(xs, dd);
    proof {
        lemma_div_round_even_bounds(xs as nat, dd as nat);
    }
    assert(m < 0x40_0000_0000_0000u128) by (nonlinear_arith)
        requires
            m <= xs / dd + 1,
            (xs / dd) * dd <= xs,
            dd == d,
            s == 0 ==> xs == x,
            s != 0 ==> xs < 2 * 4503599627370496 * d,
            x <= a + 2048,
            a <= 0x8000_0000_0000_0000u64,
            1000 <= d,
    ;
    let t = round_even(10 * m, ps);
    proof {
        lemma_div_round_even_bounds((10 * m) as nat, ps as nat);
    }
    assert(t < 0x400_0000_0000_0000u128) by (nonlinear_arith)
        requires
            t <= (10 * m) as nat / (ps as nat) + 1,
            ps >= 1,
            m < 0x40_0000_0000_0000u128,
    ;
    t as u64
}

proof fn lemma_div_mod_of(n: nat, d: nat, q: nat, r: nat)
    requires
        d > 0,
        r < d,
        n == q * d + r,
    ensures
        n / d == q,
        n % d == r,
{
    vstd::arithmetic::div_mod::lemma_fundamental_div_mod_converse_div(n as int, d as int, q as int, r as int);
    vstd::arithmetic::div_mod::lemma_fundamental_div_mod_converse_mod(n as int, d as int, q as int, r as int);
}

proof fn lemma_div_mod_parts(n: nat, d: nat)
    requires
        d > 0,
    ensures
        n == (n / d) * d + n % d,
        n % d < d,
{
    assert(n == (n / d) * d + n % d && n % d < d) by (nonlinear_arith)
        requires
            d > 0,
    ;
}

/// Rounding to nearest, ties to even, never reverses the order of two
/// numerators over the same divisor.
proof fn lemma_round_monotone(n1: nat, n2: nat, d: nat)
    requires
        d > 0,
        n1 <= n2,
    ensures
        div_round_even(n1, d) <= div_round_even(n2, d),
{
    lemma_div_mod_parts(n1, d);
    lemma_div_mod_parts(n2, d);
    let q1 = n1 / d;
    let q2 = n2 / d;
    assert(q1 <= q2) by (nonlinear_arith)
        requires
            n1 <= n2,
            n1 == q1 * d + n1 % d,
            n2 == q2 * d + n2 % d,
            n1 % d < d,
            d > 0,
    ;
    if q1 == q2 {
        assert(n1 % d <= n2 % d);
    }
}

/// Scaling numerator and divisor alike does not change the rounded quotient.
proof fn lemma_round_scaled(n: nat, d: nat, c: nat)
    requires
        d > 0,
        c > 0,
    ensures
        div_round_even(n * c, d * c) == div_round_even(n, d),
{
    lemma_div_mod_parts(n, d);
    let q = n / d;
    let r = n % d;
    assert(n * c == q * (d * c) + r * c && r * c < d * c) by (nonlinear_arith)
        requires
            n == q * d + r,
            r < d,
            c > 0,
    ;
    assert(d * c > 0) by (nonlinear_arith)
        requires
            d > 0,
            c > 0,
    ;
    lemma_div_mod_of(n * c, d * c, q, r * c);
    assert((2 * r < d) == (2 * (r * c) < d * c)) by (nonlinear_arith)
        requires
            c > 0,
    ;
    assert((2 * r > d) == (2 * (r * c) > d * c)) by (nonlinear_arith)
        requires
            c > 0,
    ;
}

/// A multiple of the divisor rounds to its exact quotient.
proof fn lemma_round_exact(m: nat, d: nat)
    requires
        d > 0,
    ensures
        div_round_even(m * d, d) == m,
{
    lemma_div_mod_of(m * d, d, m, 0);
}

proof fn lemma_pow2_adds(a: nat, b: nat)
    ensures
        pow2(a + b) == pow2(a) * pow2(b),
    decreases a,
{
    if a > 0 {
        lemma_pow2_adds((a - 1) as nat, b);
        assert(((a - 1) as nat + b) as nat == (a - 1 + b) as nat);
        assert(pow2(a + b) == 2 * pow2((a - 1 + b) as nat));
        assert(pow2(a) * pow2(b) == 2 * (pow2((a - 1) as nat) * pow2(b))) by (nonlinear_arith)
            requires
                pow2(a) == 2 * pow2((a - 1) as nat),
        ;
    } else {
        assert(pow2(a) == 1);
        assert(a + b == b);
    }
}

proof fn lemma_pow2_monotone(a: nat, b: nat)
    requires
        a <= b,
    ensures
        pow2(a) <= pow2(b),
    decreases b,
{
    if a < b {
        lemma_pow2_monotone(a, (b - 1) as nat);
        lemma_pow2_pos((b - 1) as nat);
    }
}

proof fn lemma_pow2_53()
    ensures
        pow2(53) == significand_limit(),
        pow2(52) == significand_floor(),
{
    reveal_with_fuel(pow2, 54);
}

/// `a` needs `excess_bits(a)` more bits than a significand holds: it lies
/// below `2^(53 + k)`, and (when `k > 0`) at or above `2^(52 + k)`.
proof fn lemma_excess_range(a: nat)
    ensures
        a < pow2(53 + excess_bits(a)),
        excess_bits(a) > 0 ==> pow2(52 + excess_bits(a)) <= a,
    decreases a,
{
    lemma_pow2_53();
    if a >= significand_limit() {
        let k1 = excess_bits(a / 2);
        lemma_excess_range(a / 2);
        assert(excess_bits(a) == 1 + k1);
        assert(pow2(53 + excess_bits(a)) == 2 * pow2(53 + k1)) by {
            assert((53 + excess_bits(a) - 1) as nat == 53 + k1);
        }
        assert(pow2(52 + excess_bits(a)) == 2 * pow2(52 + k1)) by {
            assert((52 + excess_bits(a) - 1) as nat == 52 + k1);
        }
        if k1 == 0 {
            assert(52 + excess_bits(a) == 53);
        }
    }
}

proof fn lemma_mul_le(a: nat, b: nat, c: nat)
    requires
        a <= b,
    ensures
        a * c <= b * c,
{
    assert(a * c <= b * c) by (nonlinear_arith)
        requires
            a <= b,
    ;
}

/// Conversion to binary64 preserves order.
proof fn lemma_f64_of_monotone(a: nat, b: nat)
    requires
        a <= b,
    ensures
        f64_of(a) <= f64_of(b),
{
    let ka = excess_bits(a);
    let kb = excess_bits(b);
    lemma_excess_range(a);
    lemma_excess_range(b);
    lemma_pow2_pos(ka);
    lemma_pow2_pos(kb);
    let pa = pow2(ka);
    let pb = pow2(kb);
    if ka > kb {
        lemma_pow2_monotone(53 + kb, 52 + ka);
        assert(false);
    }
    if ka == kb {
        lemma_round_monotone(a, b, pa);
        lemma_mul_le(div_round_even(a, pa), div_round_even(b, pa), pa);
    } else {
        lemma_pow2_53();
        lemma_pow2_adds(53, ka);
        lemma_pow2_adds(52, kb);
        lemma_pow2_monotone(53 + ka, 52 + kb);
        // a rounds to at most 2^53 units of 2^ka
        lemma_round_monotone(a, significand_limit() * pa, pa);
        lemma_round_exact(significand_limit(), pa);
        lemma_mul_le(div_round_even(a, pa), significand_limit(), pa);
        // b rounds to at least 2^52 units of 2^kb
        lemma_round_monotone(significand_floor() * pb, b, pb);
        lemma_round_exact(significand_floor(), pb);
        lemma_mul_le(significand_floor(), div_round_even(b, pb), pb);
    }
}

/// `binade_shift` stops at the first `s` from `s0` where the scaled value
/// reaches the significand range, and never beyond 52.
proof fn lemma_binade(x: nat, d: nat, s0: nat)
    requires
        s0 <= 52,
    ensures
        s0 <= binade_shift(x, d, s0) <= 52,
        binade_shift(x, d, s0) == 52 || x * pow2(binade_shift(x, d, s0)) >= significand_floor() * d,
        forall|j: nat| s0 <= j < binade_shift(x, d, s0) ==> x * #[trigger] pow2(j) < significand_floor() * d,
    decreases 52 - s0,
{
    if !(s0 >= 52 || x * pow2(s0) >= significand_floor() * d) {
        lemma_binade(x, d, s0 + 1);
    }
}

/// The printed tenths of `(a as f64) / (d as f64)` never decrease as `a`
/// grows.
pub proof fn lemma_quotient_tenths_monotone(a: nat, b: nat, d: nat)
    requires
        d > 0,
        a <= b,
    ensures
        f64_quotient_tenths(a, d) <= f64_quotient_tenths(b, d),
{
    let x = f64_of(a);
    let y = f64_of(b);
    lemma_f64_of_monotone(a, b);
    let sx = binade_shift(x, d, 0);
    let sy = binade_shift(y, d, 0);
    lemma_binade(x, d, 0);
    lemma_binade(y, d, 0);
    lemma_pow2_pos(sx);
    lemma_pow2_pos(sy);
    let px = pow2(sx);
    let py = pow2(sy);
    let fd = significand_floor() * d;
    if sy > sx {
        lemma_mul_le(x, y, px);
        assert(y * pow2(sx) < fd);
        assert(false);
    }
    let mx = div_round_even(x * px, d);
    let my = div_round_even(y * py, d);
    if sx == sy {
        lemma_mul_le(x, y, px);
        lemma_round_monotone(x * px, y * px, d);
        lemma_mul_le(mx, my, 10);
        lemma_round_monotone(10 * mx, 10 * my, px);
    } else {
        // x / d is below 2^(53 - sx): mx is at most 2^53
        let h = (sx - 1) as nat;
        assert(x * pow2(h) < fd);
        assert(px == 2 * pow2(h));
        assert(x * px < 2 * fd) by (nonlinear_arith)
            requires
                x * pow2(h) < fd,
                px == 2 * pow2(h),
        ;
        assert((2 * significand_floor()) * d == 2 * fd) by (nonlinear_arith)
            requires
                fd == significand_floor() * d,
        ;
        lemma_round_monotone(x * px, (2 * significand_floor()) * d, d);
        lemma_round_exact(2 * significand_floor(), d);
        assert(mx <= 2 * significand_floor());
        // y / d is at least 2^(52 - sy): my is at least 2^52
        assert(y * py >= fd);
        lemma_round_monotone(fd, y * py, d);
        lemma_round_exact(significand_floor(), d);
        assert(my >= significand_floor());
        // compare over the common denominator 2^sx
        let e = (sx - sy) as nat;
        lemma_pow2_adds(e, sy);
        assert(e + sy == sx);
        let q = pow2(e);
        lemma_pow2_pos((e - 1) as nat);
        assert(q == 2 * pow2((e - 1) as nat));
        assert(q >= 2);
        assert(10 * mx <= (10 * my) * q) by (nonlinear_arith)
            requires
                mx <= 2 * significand_floor(),
                my >= significand_floor(),
                q >= 2,
        ;
        lemma_round_scaled(10 * my, py, q);
        assert(py * q == px) by (nonlinear_arith)
            requires
                px == q * py,
        ;
        lemma_round_monotone(10 * mx, (10 * my) * q, px);
    }
}

} // verus!
