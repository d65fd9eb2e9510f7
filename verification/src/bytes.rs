//! Little-endian integers as byte sequences.

use vstd::prelude::*;

verus! {

/// `256` to the power `n`.
pub open spec fn pow256(n: nat) -> nat
    decreases n,
{
    if n == 0 {
        1
    } else {
        256 * pow256((n - 1) as nat)
    }
}

/// The `n` lowest base-256 digits of `x`, lowest first.
pub open spec fn le(x: nat, n: nat) -> Seq<u8>
    decreases n,
{
    if n == 0 {
        Seq::empty()
    } else {
        seq![(x % 256) as u8] + le(x / 256, (n - 1) as nat)
    }
}

/// `n` zero bytes.
pub open spec fn zeros(n: nat) -> Seq<u8> {
    Seq::new(n, |i: int| 0u8)
}

/// The number whose base-256 digits are `s`, lowest first.
pub open spec fn le_value(s: Seq<u8>) -> nat
    decreases s.len(),
{
    if s.len() == 0 {
        0
    } else {
        (s[0] as nat) + 256 * le_value(s.drop_first())
    }
}

pub broadcast proof fn lemma_le_len(x: nat, n: nat)
    ensures
        #[trigger] le(x, n).len() == n,
    decreases n,
{
    if n > 0 {
        lemma_le_len(x / 256, (n - 1) as nat);
    }
}

/// A number below `256^n` is read back from its `n` digits.
pub proof fn lemma_le_round_trip(x: nat, n: nat)
    requires
        x < pow256(n),
    ensures
        le_value(le(x, n)) == x,
    decreases n,
{
    if n > 0 {
        let s = le(x, n);
        lemma_le_round_trip(x / 256, (n - 1) as nat);
        assert(s.drop_first() =~= le(x / 256, (n - 1) as nat));
    }
}

/// `len` digits stand for a number below `256^len`.
pub proof fn lemma_le_value_bound(s: Seq<u8>)
    ensures
        le_value(s) < pow256(s.len()),
    decreases s.len(),
{
    if s.len() > 0 {
        lemma_le_value_bound(s.drop_first());
    }
}

/// The digits of the number that `s` stands for are `s`.
pub proof fn lemma_le_of_value(s: Seq<u8>)
    ensures
        le(le_value(s), s.len()) == s,
    decreases s.len(),
{
    if s.len() > 0 {
        let rest = s.drop_first();
        lemma_le_of_value(rest);
        let x = le_value(s);
        assert(x / 256 == le_value(rest));
        assert(x % 256 == s[0]);
        assert(le(x, s.len()) =~= s);
    }
}

pub proof fn lemma_pow256_values()
    ensures
        pow256(0) == 1,
        pow256(1) == 0x100,
        pow256(4) == 0x1_0000_0000,
        pow256(8) == 0x1_0000_0000_0000_0000,
        pow256(16) == 0x1_0000_0000_0000_0000_0000_0000_0000_0000,
{
    reveal_with_fuel(pow256, 17);
}

pub proof fn lemma_pow256_monotonic(a: nat, b: nat)
    requires
        a <= b,
    ensures
        pow256(a) <= pow256(b),
    decreases b,
{
    if a < b {
        lemma_pow256_monotonic(a, (b - 1) as nat);
    }
}

/// Appends the `n` lowest base-256 digits of `x`.
pub fn push_le(out: &mut Vec<u8>, x: u128, n: usize)
    ensures
        final(out)@ == old(out)@ + le(x as nat, n as nat),
{
    let mut rest: u128 = x;
    let mut i: usize = 0;
    let ghost start = out@;
    assert(start + le(x as nat, n as nat) =~= out@ + le(rest as nat, (n - i) as nat));
    while i < n
        invariant
            i <= n,
            start + le(x as nat, n as nat) == out@ + le(rest as nat, (n - i) as nat),
        decreases n - i,
    {
        let ghost before = out@;
        let digit: u8 = (rest % 256) as u8;
        out.push(digit);
        proof {
            assert(before + le(rest as nat, (n - i) as nat) =~= out@ + le(
                (rest / 256) as nat,
                (n - i - 1) as nat,
            ));
        }
        rest = rest / 256;
        i = i + 1;
    }
    assert(out@ + le(rest as nat, 0) =~= out@);
}

/// Reads `n` base-256 digits of `buf` from `pos` on.
pub fn read_le(buf: &[u8], pos: usize, n: usize) -> (x: u128)
    requires
        n <= 16,
        pos + n <= buf@.len(),
    ensures
        x == le_value(buf@.subrange(pos as int, pos + n)),
        x < pow256(n as nat),
{
    let mut x: u128 = 0;
    let mut i: usize = n;
    let total: usize = buf.len();
    proof {
        lemma_pow256_values();
        lemma_pow256_monotonic(n as nat, 16);
    }
    assert(buf@.subrange(pos + n, pos + n).len() == 0);
    while i > 0
        invariant
            i <= n <= 16,
            pos + n <= total,
            total == buf@.len(),
            pow256(n as nat) <= pow256(16),
            pow256(16) == 0x1_0000_0000_0000_0000_0000_0000_0000_0000,
            x == le_value(buf@.subrange(pos + i, pos + n)),
        decreases i,
    {
        i = i - 1;
        let ghost digits = buf@.subrange(pos + i, pos + n);
        proof {
            assert(digits.drop_first() =~= buf@.subrange(pos + i + 1, pos + n));
            lemma_le_value_bound(digits);
            lemma_pow256_monotonic((n - i) as nat, n as nat);
        }
        x = x * 256 + buf[pos + i] as u128;
    }
    proof {
        lemma_le_value_bound(buf@.subrange(pos as int, pos + n));
    }
    x
}

/// Bytes stand for a number lowest first: each is worth 256 times as much as the
/// one before it.
pub proof fn bytes_are_worth_their_place(s: Seq<u8>, t: Seq<u8>, b: u8)
    ensures
        le_value(seq![b] + t) == b + 256 * le_value(t),
        le_value(Seq::empty()) == 0,
        le_value(s + t) == le_value(s) + pow256(s.len()) * le_value(t),
        le(le_value(s), s.len()) == s,
    decreases s.len(),
{
    assert((seq![b] + t).drop_first() =~= t);
    lemma_le_of_value(s);
    if s.len() > 0 {
        let rest = s.drop_first();
        bytes_are_worth_their_place(rest, t, b);
        assert((s + t).drop_first() =~= rest + t);
        let p = pow256(rest.len());
        let v = le_value(t);
        assert(pow256(s.len()) == 256 * p);
        assert(256 * (p * v) == (256 * p) * v) by (nonlinear_arith);
        assert((s + t)[0] == s[0]);
    } else {
        assert(s + t =~= t);
        assert(pow256(0) == 1);
        assert(pow256(s.len()) * le_value(t) == le_value(t));
    }
}

} // verus!
