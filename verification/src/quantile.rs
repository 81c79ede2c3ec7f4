//! Where a quantile falls in a sample: the sample of `n` values is read at
//! position `(n - 1) * q`, between the values at the positions just below and
//! just above it. The quantile is a double in the unit interval, read from
//! its order key exactly, as a significand over a power of two.
use vstd::prelude::*;
use crate::real_key::{RealKey, SIGN_BIT, ONE_BITS};

verus! {

/// Two to the power `e`.
pub open spec fn two_pow(e: nat) -> int
    decreases e,
{
    if e == 0 {
        1
    } else {
        2 * two_pow((e - 1) as nat)
    }
}

/// 2^52: the weight of the lowest bit of a double's exponent field.
pub open spec fn exponent_unit() -> int {
    0x10_0000_0000_0000
}

/// The exponent field of a non-negative double, from its order key.
pub open spec fn exponent_field(q: RealKey) -> int {
    (q.0 - SIGN_BIT) / exponent_unit()
}

/// The significand of a non-negative double, from its order key: the
/// fraction field, with the hidden bit where the double is normal.
pub open spec fn quantile_sig(q: RealKey) -> int {
    let f = (q.0 - SIGN_BIT) % exponent_unit();
    if exponent_field(q) == 0 {
        f
    } else {
        f + exponent_unit()
    }
}

/// The power of two that the significand is divided by: a double `q` in the
/// unit interval is `quantile_sig(q) / 2^quantile_shift(q)`.
pub open spec fn quantile_shift(q: RealKey) -> nat {
    if exponent_field(q) == 0 {
        1074
    } else {
        (1075 - exponent_field(q)) as nat
    }
}

/// `(n - 1) * q` times `2^quantile_shift(q)`.
pub open spec fn position_num(n: int, q: RealKey) -> int {
    (n - 1) * quantile_sig(q)
}

/// The position just below (or at) `(n - 1) * q`.
pub open spec fn quantile_low(n: int, q: RealKey) -> int {
    position_num(n, q) / two_pow(quantile_shift(q))
}

/// Whether `(n - 1) * q` is a whole position.
pub open spec fn at_whole_position(n: int, q: RealKey) -> bool {
    position_num(n, q) % two_pow(quantile_shift(q)) == 0
}

/// The position just above (or at) `(n - 1) * q`.
pub open spec fn quantile_high(n: int, q: RealKey) -> int {
    if at_whole_position(n, q) {
        quantile_low(n, q)
    } else {
        quantile_low(n, q) + 1
    }
}

/// Whether `k` lies between `a` and `b`, in either order.
pub open spec fn lies_between(k: RealKey, a: RealKey, b: RealKey) -> bool {
    (a.0 <= k.0 && k.0 <= b.0) || (b.0 <= k.0 && k.0 <= a.0)
}

/// Whether `k` lies between the values of a sample at the positions just
/// below and just above where the quantile falls; the value there where the
/// quantile falls on a whole position.
pub open spec fn between_quantile_neighbours(vals: Seq<RealKey>, q: RealKey, k: RealKey) -> bool {
    lies_between(k, vals[quantile_low(vals.len() as int, q)], vals[quantile_high(vals.len() as int, q)])
}

/// Powers of two grow with the exponent.
pub proof fn lemma_two_pow_mono(a: nat, b: nat)
    requires
        a <= b,
    ensures
        0 < two_pow(a) <= two_pow(b),
    decreases b,
{
    if b > a {
        lemma_two_pow_mono(a, (b - 1) as nat);
    } else if a > 0 {
        lemma_two_pow_mono((a - 1) as nat, (a - 1) as nat);
    }
}

/// Two to the 52nd and 53rd.
proof fn lemma_two_pow_52()
    ensures
        two_pow(52) == exponent_unit(),
        two_pow(53) == 2 * exponent_unit(),
{
    reveal_with_fuel(two_pow, 54);
}

/// A quantile in the unit interval is its significand over its power of two,
/// and the significand is at most that power: `q <= 1`.
pub proof fn lemma_quantile_parts(q: RealKey)
    requires
        SIGN_BIT <= q.0 <= SIGN_BIT + ONE_BITS,
    ensures
        0 <= quantile_sig(q) <= two_pow(quantile_shift(q)),
        quantile_shift(q) >= 52,
        q.0 == SIGN_BIT ==> quantile_sig(q) == 0,
        q.0 == SIGN_BIT + ONE_BITS ==> quantile_sig(q) == two_pow(quantile_shift(q)),
{
    lemma_two_pow_52();
    let e = exponent_field(q);
    assert(0 <= e <= 1023);
    if e == 0 {
        lemma_two_pow_mono(52, 1074);
    } else if e < 1023 {
        lemma_two_pow_mono(53, quantile_shift(q));
    } else {
        assert(q.0 - SIGN_BIT == ONE_BITS);
    }
}

/// Where a quantile in the unit interval falls in a sample of `n >= 1`
/// values: the position below is at most the one above, which is at most one
/// further and still in the sample; they are equal exactly where the quantile
/// falls on a whole position; the quantile 0 falls on the first position and
/// the quantile 1 on the last.
pub proof fn law_quantile_positions(n: int, q: RealKey)
    requires
        n >= 1,
        SIGN_BIT <= q.0 <= SIGN_BIT + ONE_BITS,
    ensures
        0 <= quantile_low(n, q) <= quantile_high(n, q) <= quantile_low(n, q) + 1,
        quantile_high(n, q) <= n - 1,
        (quantile_low(n, q) == quantile_high(n, q)) == at_whole_position(n, q),
        quantile_low(n, q) * two_pow(quantile_shift(q)) <= position_num(n, q) <= quantile_high(n, q) * two_pow(quantile_shift(q)),
        q.0 == SIGN_BIT ==> quantile_low(n, q) == 0 && quantile_high(n, q) == 0,
        q.0 == SIGN_BIT + ONE_BITS ==> quantile_low(n, q) == n - 1 && quantile_high(n, q) == n - 1,
{
    lemma_quantile_parts(q);
    lemma_two_pow_mono(0, quantile_shift(q));
    let p = position_num(n, q);
    let d = two_pow(quantile_shift(q));
    let s = quantile_sig(q);
    assert(0 <= p <= (n - 1) * d) by (nonlinear_arith)
        requires p == (n - 1) * s, 0 <= s <= d, n >= 1;
    let lo = p / d;
    assert(lo * d <= p < lo * d + d && lo >= 0) by (nonlinear_arith)
        requires lo == p / d, d > 0, p >= 0;
    assert(lo <= n - 1) by (nonlinear_arith)
        requires lo * d <= p, p <= (n - 1) * d, d > 0;
    if !at_whole_position(n, q) {
        assert(lo < n - 1) by (nonlinear_arith)
            requires lo * d <= p, p <= (n - 1) * d, d > 0, p % d != 0, lo == p / d;
        assert(p <= (lo + 1) * d) by (nonlinear_arith)
            requires p < lo * d + d;
    } else {
        assert(p == lo * d) by (nonlinear_arith)
            requires lo == p / d, p % d == 0, d > 0;
    }
    if q.0 == SIGN_BIT {
        assert(p == 0) by (nonlinear_arith)
            requires p == (n - 1) * s, s == 0;
        assert(p / d == 0 && p % d == 0) by (nonlinear_arith)
            requires p == 0, d > 0;
    }
    if q.0 == SIGN_BIT + ONE_BITS {
        assert(p == (n - 1) * d);
        assert(p / d == n - 1) by (nonlinear_arith)
            requires p == (n - 1) * d, d > 0;
        assert(p % d == 0) by (nonlinear_arith)
            requires p == (n - 1) * d, d > 0;
    }
}

/// Halving a quotient by a power of two: dividing by `a` and then by 2 is
/// dividing by `2a`, and nothing is left over from `2a` exactly where nothing
/// is left over from `a` and the quotient is even.
proof fn lemma_halve(p: int, a: int)
    requires
        p >= 0,
        a > 0,
    ensures
        (p / a) / 2 == p / (a * 2),
        (p % (a * 2) == 0) == (p % a == 0 && (p / a) % 2 == 0),
{
    let q1 = p / a;
    let r1 = p % a;
    let q2 = q1 / 2;
    let b = q1 % 2;
    assert(p == q1 * a + r1 && 0 <= r1 < a) by (nonlinear_arith)
        requires q1 == p / a, r1 == p % a, a > 0;
    assert(q1 == q2 * 2 + b && 0 <= b < 2);
    let r = a * b + r1;
    assert(p == q2 * (a * 2) + r && 0 <= r < a * 2) by (nonlinear_arith)
        requires p == q1 * a + r1, q1 == q2 * 2 + b, 0 <= b < 2, 0 <= r1 < a, r == a * b + r1;
    vstd::arithmetic::div_mod::lemma_fundamental_div_mod_converse(p, a * 2, q2, r);
    assert((r == 0) == (r1 == 0 && b == 0)) by (nonlinear_arith)
        requires r == a * b + r1, 0 <= b < 2, 0 <= r1 < a, a > 0;
}

/// A summary between the neighbours of the quantile is the value at the
/// quantile's position where it falls on a whole position, and the common
/// value where both neighbours hold the same value.
pub proof fn law_summary_at_whole_position(vals: Seq<RealKey>, q: RealKey, k: RealKey)
    requires
        vals.len() >= 1,
        SIGN_BIT <= q.0 <= SIGN_BIT + ONE_BITS,
        between_quantile_neighbours(vals, q, k),
    ensures
        at_whole_position(vals.len() as int, q) ==> k == vals[quantile_low(vals.len() as int, q)],
        vals[quantile_low(vals.len() as int, q)] == vals[quantile_high(vals.len() as int, q)]
            ==> k == vals[quantile_low(vals.len() as int, q)],
{
    law_quantile_positions(vals.len() as int, q);
}

/// The positions just below and just above where the quantile `q` (in the
/// unit interval) falls in a sample of `n >= 1` values.
pub fn quantile_positions(n: usize, q: RealKey) -> (r: (usize, usize))
    requires
        n >= 1,
        SIGN_BIT <= q.0 <= SIGN_BIT + ONE_BITS,
    ensures
        r.0 == quantile_low(n as int, q),
        r.1 == quantile_high(n as int, q),
        r.0 <= r.1 < n,
{
    proof {
        lemma_quantile_parts(q);
        law_quantile_positions(n as int, q);
    }
    let mag: u64 = q.0 - SIGN_BIT;
    let e: u64 = mag / 0x10_0000_0000_0000u64;
    let f: u64 = mag % 0x10_0000_0000_0000u64;
    let sig: u64 = if e == 0 { f } else { f + 0x10_0000_0000_0000u64 };
    let shift: u64 = if e == 0 { 1074 } else { 1075 - e };
    assert(sig as int == quantile_sig(q));
    assert(shift as nat == quantile_shift(q));
    let ghost p: int = position_num(n as int, q);
    assert(sig < 0x20_0000_0000_0000);
    assert((n - 1) as int * (sig as int) < 0x1_0000_0000_0000_0000_0000_0000_0000_0000) by (nonlinear_arith)
        requires 0 <= n - 1 < 0x1_0000_0000_0000_0000, 0 <= sig < 0x20_0000_0000_0000;
    let prod: u128 = (n - 1) as u128 * sig as u128;
    assert(prod as int == p);
    // Halve `shift` times, noting whether a bit was dropped.
    let mut cur: u128 = prod;
    let mut whole = true;
    let mut i: u64 = 0;
    while i < shift
        invariant
            i <= shift,
            p >= 0,
            cur as int == p / two_pow(i as nat),
            whole == (p % two_pow(i as nat) == 0),
        decreases shift - i,
    {
        proof {
            lemma_two_pow_mono(0, i as nat);
            let a = two_pow(i as nat);
            assert(two_pow((i + 1) as nat) == a * 2);
            lemma_halve(p, a);
        }
        whole = whole && cur % 2 == 0;
        cur = cur / 2;
        i = i + 1;
    }
    let lo = cur as usize;
    let hi = if whole { lo } else { lo + 1 };
    (lo, hi)
}

} // verus!
