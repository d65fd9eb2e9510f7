//! The binary logarithm in units of `2^-16`, exact to the last unit.
//!
//! The logarithm of `x` in these units is the largest `l` with
//! `2^l <= x^(2^16)`. That power is far too long to be computed each time, so
//! it is kept between two bounds, and the bounds are kept short: first 64 bits,
//! and where those leave the last unit open, some words more. Only where even
//! that is not enough is the power computed in full.

use crate::hrw;
use vstd::arithmetic::power::*;
use vstd::arithmetic::power2::*;
use vstd::prelude::*;

verus! {

/// The number `x^(2^16)`.
pub open spec fn power(x: nat) -> nat {
    pow(x as int, 0x1_0000) as nat
}

/// `log2 x` in units of `2^-16`, rounded down.
pub open spec fn units(x: nat) -> nat {
    hrw::floor_log2(power(x))
}

proof fn lemma_pow_monotonic(a: int, b: int, e: nat)
    requires
        0 <= a <= b,
    ensures
        0 <= pow(a, e) <= pow(b, e),
        a < b && e > 0 ==> pow(a, e) < pow(b, e),
    decreases e,
{
    reveal(pow);
    if e > 0 {
        lemma_pow_monotonic(a, b, (e - 1) as nat);
        let p = pow(a, (e - 1) as nat);
        let q = pow(b, (e - 1) as nat);
        assert(0 <= a * p <= b * q) by (nonlinear_arith)
            requires
                0 <= a <= b,
                0 <= p <= q,
        ;
        if a < b {
            lemma_pow_positive(b, (e - 1) as nat);
            assert(a * p < b * q) by (nonlinear_arith)
                requires
                    0 <= a < b,
                    0 <= p <= q,
                    q > 0,
            ;
        }
    }
}

/// `(2^c)^k == 2^(c * k)`.
proof fn lemma_pow_of_pow2(c: nat, k: nat)
    ensures
        pow(pow2(c) as int, k) == pow2(c * k),
{
    lemma_pow2(c);
    lemma_pow2(c * k);
    lemma_pow_multiplies(2, c, k);
}

/// Two bounds in which the logarithm is one and the same number of units.
proof fn lemma_units_are(x: nat, l: nat)
    requires
        x >= 1,
        pow2(l) <= pow(x as int, 0x1_0000) < pow2(l + 1),
    ensures
        units(x) == l,
{
    hrw::lemma_floor_log2_is(power(x), l);
}

/// What the units say: `2^l <= x^(2^16) < 2^(l + 1)`.
pub proof fn lemma_units_bound(x: nat)
    requires
        x >= 1,
    ensures
        pow2(units(x)) <= pow(x as int, 0x1_0000) < pow2(units(x) + 1),
{
    lemma_pow_positive(x as int, 0x1_0000);
    hrw::lemma_floor_log2_bounds(power(x));
}

/// The logarithm rises with the number.
pub proof fn lemma_units_rise(x: nat, y: nat)
    requires
        1 <= x <= y,
    ensures
        units(x) <= units(y),
{
    lemma_units_bound(x);
    lemma_units_bound(y);
    lemma_pow_monotonic(x as int, y as int, 0x1_0000);
    if units(x) > units(y) {
        hrw::lemma_pow2_le(units(y) + 1, units(x));
    }
}

/// The logarithm of a power of two is whole.
pub proof fn lemma_units_of_power(e: nat)
    ensures
        units(pow2(e)) == e * 0x1_0000,
{
    lemma_pow2_pos(e);
    lemma_pow_of_pow2(e, 0x1_0000);
    lemma_pow2_unfold(e * 0x1_0000 + 1);
    lemma_pow2_pos(e * 0x1_0000);
    lemma_units_are(pow2(e), e * 0x1_0000);
}

/// The logarithm of what is below a power of two is below that of the power.
pub proof fn lemma_units_below(x: nat, e: nat)
    requires
        1 <= x < pow2(e),
    ensures
        units(x) < e * 0x1_0000,
{
    lemma_units_bound(x);
    lemma_pow_monotonic(x as int, pow2(e) as int, 0x1_0000);
    lemma_pow_of_pow2(e, 0x1_0000);
    if units(x) >= e * 0x1_0000 {
        hrw::lemma_pow2_le(e * 0x1_0000, units(x));
    }
}

// ---------------------------------------------------------------------
// Bounds of 64 bits

/// `y / 2^l` lies between `a` and `b`, both with 63 fractional bits.
spec fn between(y: int, l: nat, a: int, b: int) -> bool {
    pow2(l) * a <= y * 0x8000_0000_0000_0000 <= pow2(l) * b
}

/// Squaring: the bounds are squared and cut back, the lower one down and the
/// upper one up. Where the square reaches 2, it is halved as well.
proof fn lemma_squared(y: int, l: nat, a: int, b: int, c: int, d: int, half: bool)
    requires
        between(y, l, a, b),
        0 <= a,
        0 <= y,
        ({
            let unit = 0x8000_0000_0000_0000 * if half {
                2int
            } else {
                1
            };
            unit * c <= a * a && b * b <= unit * d
        }),
    ensures
        between(
            y * y,
            2 * l + if half {
                1nat
            } else {
                0
            },
            c,
            d,
        ),
{
    let h: int = 0x8000_0000_0000_0000;
    let p = pow2(l) as int;
    let q: int = if half {
        2
    } else {
        1
    };
    lemma_pow2_pos(l);
    lemma_pow2_adds(l, l);
    lemma_pow2_unfold(2 * l + 1);
    assert(pow2(2 * l + if half {
        1nat
    } else {
        0
    }) == q * (p * p)) by {
        assert(2 * l + 1 - 1 == l + l);
    }
    let y2 = y * y;
    assert((q * (p * p)) * c <= y2 * h) by (nonlinear_arith)
        requires
            p * a <= y * h,
            p > 0,
            0 <= a,
            0 <= y,
            (h * q) * c <= a * a,
            y2 == y * y,
            h == 0x8000_0000_0000_0000,
    {
        assert((p * a) * (p * a) <= (y * h) * (y * h));
        assert((p * a) * (p * a) == (p * p) * (a * a));
        assert((p * p) * ((h * q) * c) <= (p * p) * (a * a));
        assert((p * p) * ((h * q) * c) == h * ((q * (p * p)) * c));
        assert((y * h) * (y * h) == h * (y2 * h));
    }
    assert(y2 * h <= (q * (p * p)) * d) by (nonlinear_arith)
        requires
            y * h <= p * b,
            p > 0,
            0 <= y,
            b * b <= (h * q) * d,
            y2 == y * y,
            h == 0x8000_0000_0000_0000,
    {
        assert(0 <= y * h);
        assert((y * h) * (y * h) <= (p * b) * (p * b));
        assert((p * b) * (p * b) == (p * p) * (b * b));
        assert((p * p) * (b * b) <= (p * p) * ((h * q) * d));
        assert((p * p) * ((h * q) * d) == h * ((q * (p * p)) * d));
        assert((y * h) * (y * h) == h * (y2 * h));
    }
}

/// Sixteen squarings on bounds of 64 bits. `None` where the bounds come to
/// differ in a unit.
fn quick(x: u64) -> (r: Option<u64>)
    requires
        x >= 1,
    ensures
        r matches Some(l) ==> l == units(x as nat),
{
    let zeros: u32 = x.leading_zeros();
    proof {
        lemma2_to64();
        lemma2_to64_rest();
        hrw::lemma_leading_zeros(x);
        hrw::lemma_floor_log2_bounds(x as nat);
    }
    let mut l: u64 = 63 - zeros as u64;
    proof {
        let e = l as nat;
        let f = pow2(zeros as nat);
        lemma_pow2_adds(e, zeros as nat);
        lemma_pow2_adds(e + 1, zeros as nat);
        lemma_pow2_pos(zeros as nat);
        let lo = pow2(e);
        let hi = pow2(e + 1);
        assert(0x8000_0000_0000_0000 <= x * f < 0x1_0000_0000_0000_0000) by (nonlinear_arith)
            requires
                lo <= x < hi,
                lo * f == 0x8000_0000_0000_0000,
                hi * f == 0x1_0000_0000_0000_0000,
                f > 0,
        ;
        vstd::bits::lemma_u64_shl_is_mul(x, zeros as u64);
        assert(lo * (x * f) == x * 0x8000_0000_0000_0000) by (nonlinear_arith)
            requires
                lo * f == 0x8000_0000_0000_0000,
        ;
        lemma_pow1(x as int);
    }
    let mut a: u64 = x << (zeros as u64);
    let mut b: u64 = a;
    let mut round: u64 = 0;
    while round < 16
        invariant
            round <= 16,
            x >= 1,
            0x8000_0000_0000_0000 <= a <= b,
            l < 64 * pow2(round as nat),
            between(pow(x as int, pow2(round as nat)), l as nat, a as int, b as int),
        decreases 16 - round,
    {
        let ghost y = pow(x as int, pow2(round as nat));
        proof {
            let k = round as nat;
            lemma2_to64();
            hrw::lemma_pow2_le(k, 16);
            lemma_pow2_unfold(k + 1);
            lemma_pow_adds(x as int, pow2(k), pow2(k));
            lemma_pow_positive(x as int, pow2(k));
            assert(0x4000_0000_0000_0000_0000_0000_0000_0000 <= a * a
                <= 0xffff_ffff_ffff_fffe_0000_0000_0000_0001) by (nonlinear_arith)
                requires
                    0x8000_0000_0000_0000 <= a <= 0xffff_ffff_ffff_ffff,
            ;
            assert(0x4000_0000_0000_0000_0000_0000_0000_0000 <= b * b
                <= 0xffff_ffff_ffff_fffe_0000_0000_0000_0001) by (nonlinear_arith)
                requires
                    0x8000_0000_0000_0000 <= b <= 0xffff_ffff_ffff_ffff,
            ;
            assert(a * a <= b * b) by (nonlinear_arith)
                requires
                    0 <= a <= b,
            ;
        }
        let low: u128 = (a as u128) * (a as u128);
        let high: u128 = (b as u128) * (b as u128);
        if low >= 0x8000_0000_0000_0000_0000_0000_0000_0000 {
            let c: u128 = low / 0x1_0000_0000_0000_0000;
            let d: u128 = (high - 1) / 0x1_0000_0000_0000_0000 + 1;
            proof {
                lemma_squared(y, l as nat, a as int, b as int, c as int, d as int, true);
            }
            a = c as u64;
            b = d as u64;
            l = 2 * l + 1;
        } else if high < 0x8000_0000_0000_0000_0000_0000_0000_0000 {
            let c: u128 = low / 0x8000_0000_0000_0000;
            let d: u128 = (high - 1) / 0x8000_0000_0000_0000 + 1;
            if d > u64::MAX as u128 {
                return None;
            }
            proof {
                lemma_squared(y, l as nat, a as int, b as int, c as int, d as int, false);
            }
            a = c as u64;
            b = d as u64;
            l = 2 * l;
        } else {
            return None;
        }
        round = round + 1;
    }
    proof {
        lemma2_to64();
        let y = pow(x as int, 0x1_0000);
        let p = pow2(l as nat) as int;
        lemma_pow2_pos(l as nat);
        lemma_pow2_unfold((l + 1) as nat);
        assert(p <= y < 2 * p) by (nonlinear_arith)
            requires
                p * a <= y * 0x8000_0000_0000_0000 <= p * b,
                0x8000_0000_0000_0000 <= a,
                b < 0x1_0000_0000_0000_0000,
                p > 0,
        ;
        lemma_units_are(x as nat, l as nat);
    }
    Some(l)
}

// ---------------------------------------------------------------------
// Bounds of any length

/// The number whose 64-bit words these are, the lowest first.
spec fn value(s: Seq<u64>) -> nat
    decreases s.len(),
{
    if s.len() == 0 {
        0
    } else {
        s[0] as nat + 0x1_0000_0000_0000_0000 * value(s.drop_first())
    }
}

/// The weight of word number `n`.
spec fn weight(n: nat) -> nat {
    pow2(64 * n)
}

proof fn lemma_weight(n: nat)
    ensures
        weight(0) == 1,
        weight(n) > 0,
        weight(n + 1) == 0x1_0000_0000_0000_0000 * weight(n),
{
    lemma2_to64();
    lemma2_to64_rest();
    lemma_pow2_pos(64 * n);
    lemma_pow2_adds(64, 64 * n);
}

proof fn lemma_value_push(s: Seq<u64>, d: u64)
    ensures
        value(s.push(d)) == value(s) + d * weight(s.len()),
    decreases s.len(),
{
    lemma_weight(0);
    if s.len() == 0 {
        assert(s.push(d).drop_first() =~= Seq::<u64>::empty());
        assert(value(Seq::<u64>::empty()) == 0);
    } else {
        let t = s.drop_first();
        lemma_value_push(t, d);
        lemma_weight(t.len());
        assert(s.push(d).drop_first() =~= t.push(d));
        let w = weight(t.len());
        assert(d * (0x1_0000_0000_0000_0000 * w) == 0x1_0000_0000_0000_0000 * (d * w))
            by (nonlinear_arith);
    }
}

proof fn lemma_value_bound(s: Seq<u64>)
    ensures
        value(s) < weight(s.len()),
    decreases s.len(),
{
    lemma_weight(0);
    if s.len() > 0 {
        lemma_value_bound(s.drop_first());
        lemma_weight((s.len() - 1) as nat);
    }
}

/// There are no words to spare: the highest is not zero.
spec fn trimmed(s: Seq<u64>) -> bool {
    s.len() > 0 ==> s.last() != 0
}

/// `v * d + c`.
fn mul_add(v: &Vec<u64>, d: u64, c: u64) -> (out: Vec<u64>)
    requires
        d >= 1,
        trimmed(v@),
    ensures
        value(out@) == value(v@) * d + c,
        trimmed(out@),
        out@.len() <= v@.len() + 1,
        v@.len() <= out@.len(),
{
    let mut out: Vec<u64> = Vec::new();
    let mut carry: u64 = c;
    let mut i: usize = 0;
    proof {
        lemma_weight(0);
        assert(v@.take(0) =~= Seq::empty());
        assert(value(v@.take(0)) * d == 0) by (nonlinear_arith)
            requires
                value(v@.take(0)) == 0,
        ;
    }
    while i < v.len()
        invariant
            i <= v@.len(),
            d >= 1,
            trimmed(v@),
            out@.len() == i,
            value(out@) + carry * weight(i as nat) == value(v@.take(i as int)) * d + c,
            i == v@.len() && i > 0 && carry == 0 ==> out@[i - 1] != 0,
        decreases v@.len() - i,
    {
        let w: u64 = v[i];
        assert(w * d <= 0xffff_ffff_ffff_ffff * 0xffff_ffff_ffff_ffff) by (nonlinear_arith)
            requires
                w <= 0xffff_ffff_ffff_ffff,
                d <= 0xffff_ffff_ffff_ffff,
        ;
        let t: u128 = (w as u128) * (d as u128) + carry as u128;
        let low: u64 = (t % 0x1_0000_0000_0000_0000) as u64;
        let high: u64 = (t / 0x1_0000_0000_0000_0000) as u64;
        proof {
            let p = weight(i as nat) as int;
            let head = value(v@.take(i as int)) as int;
            let before = value(out@) as int;
            lemma_weight(i as nat);
            lemma_value_push(out@, low);
            assert(v@.take(i + 1) =~= v@.take(i as int).push(w));
            lemma_value_push(v@.take(i as int), w);
            assert(before + low * p + high * (0x1_0000_0000_0000_0000 * p) == (head + w * p) * d + c)
                by (nonlinear_arith)
                requires
                    before + carry * p == head * d + c,
                    low + high * 0x1_0000_0000_0000_0000 == w * d + carry,
            ;
            if i + 1 == v@.len() && high == 0 {
                assert(w == v@.last());
                assert(w * d >= 1) by (nonlinear_arith)
                    requires
                        w >= 1,
                        d >= 1,
                ;
            }
        }
        out.push(low);
        carry = high;
        i = i + 1;
    }
    assert(v@.take(i as int) =~= v@);
    if carry != 0 {
        proof {
            lemma_value_push(out@, carry);
        }
        out.push(carry);
    }
    out
}

/// The logarithm of a number, rounded down to a whole one.
fn whole_log2(v: &Vec<u64>) -> (e: u64)
    requires
        0 < v@.len() <= 0x1_0001,
        trimmed(v@),
    ensures
        pow2(e as nat) <= value(v@) < pow2((e + 1) as nat),
        e < 64 * v@.len(),
{
    let n: usize = v.len();
    let top: u64 = v[n - 1];
    let zeros: u32 = top.leading_zeros();
    proof {
        hrw::lemma_leading_zeros(top);
        hrw::lemma_floor_log2_bounds(top as nat);
    }
    let f: u64 = 63 - zeros as u64;
    let e: u64 = (n as u64 - 1) * 64 + f;
    proof {
        let rest = v@.drop_last();
        let w = weight((n - 1) as nat) as int;
        assert(v@ =~= rest.push(top));
        lemma_value_push(rest, top);
        lemma_value_bound(rest);
        lemma_weight((n - 1) as nat);
        lemma_pow2_adds(64 * (n - 1) as nat, f as nat);
        lemma_pow2_adds(64 * (n - 1) as nat, (f + 1) as nat);
        let r = value(rest) as int;
        let lo = pow2(f as nat) as int;
        let hi = pow2((f + 1) as nat) as int;
        assert(w * lo <= r + top * w < w * hi) by (nonlinear_arith)
            requires
                0 <= r < w,
                lo <= top < hi,
        ;
    }
    e
}

/// `y / 2^s` lies between `a` and `b`.
spec fn held(y: int, s: nat, a: nat, b: nat) -> bool {
    a * pow2(s) <= y <= b * pow2(s)
}

proof fn lemma_held_times(y: int, s: nat, a: nat, b: nat, x: nat)
    requires
        held(y, s, a, b),
    ensures
        held(y * x, s, a * x, b * x),
{
    let p = pow2(s) as int;
    assert((a * x) * p <= y * x <= (b * x) * p) by (nonlinear_arith)
        requires
            a * p <= y <= b * p,
            x >= 0,
    ;
}

/// Dropping the lowest words of both bounds, and raising the upper one.
proof fn lemma_held_drop(y: int, s: nat, a: Seq<u64>, b: Seq<u64>)
    requires
        held(y, s, value(a), value(b)),
        a.len() > 0,
        b.len() > 0,
    ensures
        held(y, s + 64, value(a.drop_first()), value(b.drop_first()) + 1),
{
    lemma2_to64_rest();
    lemma2_to64();
    lemma_pow2_adds(s, 64);
    lemma_pow2_pos(s);
    let p = pow2(s) as int;
    let c = value(a.drop_first()) as int;
    let d = value(b.drop_first()) as int;
    let va = value(a) as int;
    let vb = value(b) as int;
    assert(c * (p * 0x1_0000_0000_0000_0000) <= y <= (d + 1) * (p * 0x1_0000_0000_0000_0000))
        by (nonlinear_arith)
        requires
            va * p <= y <= vb * p,
            c * 0x1_0000_0000_0000_0000 <= va,
            vb <= (d + 1) * 0x1_0000_0000_0000_0000,
            p > 0,
    {
        assert(c * (p * 0x1_0000_0000_0000_0000) == (c * 0x1_0000_0000_0000_0000) * p);
        assert((d + 1) * (p * 0x1_0000_0000_0000_0000) == ((d + 1) * 0x1_0000_0000_0000_0000) * p);
    }
}

/// The power on bounds of `limit` words. `None` where they come to differ in a
/// unit.
fn on_words(x: u64, limit: usize) -> (r: Option<u64>)
    requires
        x >= 1,
        limit >= 1,
    ensures
        r matches Some(l) ==> l == units(x as nat),
{
    let mut a: Vec<u64> = Vec::new();
    let mut b: Vec<u64> = Vec::new();
    a.push(1);
    b.push(1);
    let mut s: u64 = 0;
    let mut k: u64 = 0;
    proof {
        lemma2_to64();
        lemma_weight(0);
        assert(a@ =~= Seq::empty().push(1u64));
        assert(b@ =~= Seq::empty().push(1u64));
        lemma_value_push(Seq::empty(), 1);
        lemma_pow0(x as int);
    }
    while k < 0x1_0000
        invariant
            k <= 0x1_0000,
            x >= 1,
            limit >= 1,
            s <= 64 * k,
            0 < a@.len() <= k + 1,
            0 < b@.len() <= k + 1,
            trimmed(a@),
            trimmed(b@),
            held(pow(x as int, k as nat), s as nat, value(a@), value(b@)),
        decreases 0x1_0000 - k,
    {
        let ghost y = pow(x as int, k as nat);
        proof {
            lemma_held_times(y, s as nat, value(a@), value(b@), x as nat);
            reveal(pow);
            assert(y * x == x * y) by (nonlinear_arith);
        }
        a = mul_add(&a, x, 0);
        b = mul_add(&b, x, 0);
        if a.len() > limit {
            proof {
                lemma_held_drop(y * x, s as nat, a@, b@);
                assert(a@.remove(0) =~= a@.drop_first());
                assert(b@.remove(0) =~= b@.drop_first());
            }
            a.remove(0);
            b.remove(0);
            b = mul_add(&b, 1, 1);
            s = s + 64;
        }
        k = k + 1;
    }
    let low: u64 = whole_log2(&a);
    let high: u64 = whole_log2(&b);
    if low != high {
        return None;
    }
    proof {
        let y = pow(x as int, 0x1_0000);
        let p = pow2(s as nat) as int;
        let lo = pow2(low as nat) as int;
        let hi = pow2((low + 1) as nat) as int;
        let va = value(a@) as int;
        let vb = value(b@) as int;
        lemma_pow2_pos(s as nat);
        lemma_pow2_adds(low as nat, s as nat);
        lemma_pow2_adds((low + 1) as nat, s as nat);
        assert(lo * p <= y < hi * p) by (nonlinear_arith)
            requires
                va * p <= y <= vb * p,
                lo <= va,
                vb < hi,
                p > 0,
        ;
        lemma_units_are(x as nat, (s + low) as nat);
    }
    Some(s + low)
}

/// The power in full.
fn in_full(x: u64) -> (l: u64)
    requires
        x >= 1,
    ensures
        l == units(x as nat),
{
    let mut a: Vec<u64> = Vec::new();
    a.push(1);
    let mut k: u64 = 0;
    proof {
        lemma_weight(0);
        assert(a@ =~= Seq::empty().push(1u64));
        lemma_value_push(Seq::empty(), 1);
        lemma_pow0(x as int);
    }
    while k < 0x1_0000
        invariant
            k <= 0x1_0000,
            x >= 1,
            0 < a@.len() <= k + 1,
            trimmed(a@),
            value(a@) == pow(x as int, k as nat),
        decreases 0x1_0000 - k,
    {
        proof {
            reveal(pow);
            let y = pow(x as int, k as nat);
            assert(y * x == x * y) by (nonlinear_arith);
        }
        a = mul_add(&a, x, 0);
        k = k + 1;
    }
    let l: u64 = whole_log2(&a);
    proof {
        lemma_units_are(x as nat, l as nat);
    }
    l
}

/// How many words a bound has where 64 bits leave a unit open.
const WORDS: usize = 4;

/// `log2 x` in units of `2^-16`, rounded down.
pub fn log2_q16(x: u64) -> (l: u64)
    requires
        x >= 1,
    ensures
        l == units(x as nat),
{
    match quick(x) {
        Some(l) => l,
        None => match on_words(x, WORDS) {
            Some(l) => l,
            None => in_full(x),
        },
    }
}

// ---------------------------------------------------------------------
// Laws

/// `neg_log2` is `-log2((h + 1) / 2^64)` with 16 fractional bits, exact to the
/// last: with `l` units on the other side of `64`,
/// `2^l <= (h + 1)^(2^16) < 2^(l + 1)`.
pub proof fn neg_log2_is_the_logarithm(h: u64)
    ensures
        0 <= 64 * 0x1_0000 - hrw::neg_log2(h),
        ({
            let l = (64 * 0x1_0000 - hrw::neg_log2(h)) as nat;
            pow2(l) <= pow(h + 1, 0x1_0000) < pow2(l + 1)
        }),
{
    lemma_units_bound((h + 1) as nat);
}

/// The higher the hash, the lower the logarithm that a weight is divided by.
pub proof fn neg_log2_falls(a: u64, b: u64)
    requires
        a <= b,
    ensures
        hrw::neg_log2(a) >= hrw::neg_log2(b),
{
    lemma_units_rise((a + 1) as nat, (b + 1) as nat);
}

/// A higher hash and a higher weight never lower the score.
pub proof fn scores_rise(a: u64, b: u64, v: u32, w: u32)
    requires
        a <= b,
        v <= w,
    ensures
        hrw::score(a, v) <= hrw::score(b, w),
{
    neg_log2_falls(a, b);
    hrw::neg_log2_range(b);
    let d = hrw::neg_log2(a) + 1;
    let e = hrw::neg_log2(b) + 1;
    let x = (if v < 1 {
        1int
    } else {
        v as int
    }) * 0x1_0000_0000_0000_0000;
    let y = (if w < 1 {
        1int
    } else {
        w as int
    }) * 0x1_0000_0000_0000_0000;
    vstd::arithmetic::div_mod::lemma_div_is_ordered(x, y, d);
    vstd::arithmetic::div_mod::lemma_div_is_ordered_by_denominator(y, e, d);
}

} // verus!
