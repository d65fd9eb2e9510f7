//! CRC32C (Castagnoli), driven by a 256-entry table.

use vstd::prelude::*;

verus! {

/// The Castagnoli polynomial, bits reversed.
pub const POLY: u32 = 0x82f6_3b78;

/// One step of the shift register: the lowest bit leaves, and takes the
/// polynomial with it when it was set.
pub open spec fn shift(c: u32) -> u32 {
    if c & 1 == 1 {
        POLY ^ (c >> 1)
    } else {
        c >> 1
    }
}

/// Eight steps of the shift register.
pub open spec fn shift8(c: u32) -> u32 {
    shift(shift(shift(shift(shift(shift(shift(shift(c))))))))
}

/// The register after `data`, all ones at the start: each byte is added into
/// the low bits and shifted through.
pub open spec fn register(data: Seq<u8>) -> u32
    decreases data.len(),
{
    if data.len() == 0 {
        0xffff_ffff
    } else {
        shift8(register(data.drop_last()) ^ (data.last() as u32))
    }
}

/// The CRC32C of `data`.
pub open spec fn crc(data: Seq<u8>) -> u32 {
    !register(data)
}

proof fn lemma_shift8_by_table(c: u32)
    ensures
        shift8(c) == shift8(c & 0xff) ^ (c >> 8),
{
    assert(shift8(c) == shift8(c & 0xff) ^ (c >> 8)) by (bit_vector);
}

/// The register after eight steps, for each value of the low byte.
pub fn build_table() -> (table: [u32; 256])
    ensures
        forall|i: int| 0 <= i < 256 ==> #[trigger] table@[i] == shift8(i as u32),
{
    let mut table: [u32; 256] = [0u32; 256];
    let mut i: usize = 0;
    while i < 256
        invariant
            i <= 256,
            forall|k: int| 0 <= k < i ==> #[trigger] table@[k] == shift8(k as u32),
        decreases 256 - i,
    {
        let mut c: u32 = i as u32;
        let mut j: usize = 0;
        let ghost goal = shift8(i as u32);
        let ghost mut left: nat = 8;
        while j < 8
            invariant
                j <= 8,
                left == 8 - j,
                left == 8 ==> goal == shift8(c),
                left == 7 ==> goal == shift(shift(shift(shift(shift(shift(shift(c))))))),
                left == 6 ==> goal == shift(shift(shift(shift(shift(shift(c)))))),
                left == 5 ==> goal == shift(shift(shift(shift(shift(c))))),
                left == 4 ==> goal == shift(shift(shift(shift(c)))),
                left == 3 ==> goal == shift(shift(shift(c))),
                left == 2 ==> goal == shift(shift(c)),
                left == 1 ==> goal == shift(c),
                left == 0 ==> goal == c,
            decreases 8 - j,
        {
            assert(c & 1 == 0 || c & 1 == 1) by (bit_vector);
            c = if c & 1 != 0 {
                POLY ^ (c >> 1)
            } else {
                c >> 1
            };
            j = j + 1;
            proof {
                left = (left - 1) as nat;
            }
        }
        table[i] = c;
        i = i + 1;
    }
    table
}

/// The CRC32C of `data`.
pub fn checksum(data: &[u8]) -> (sum: u32)
    ensures
        sum == crc(data@),
{
    let table = build_table();
    let mut c: u32 = 0xffff_ffff;
    let mut i: usize = 0;
    assert(data@.take(0) =~= Seq::empty());
    while i < data.len()
        invariant
            i <= data@.len(),
            c == register(data@.take(i as int)),
            forall|k: int| 0 <= k < 256 ==> #[trigger] table@[k] == shift8(k as u32),
        decreases data@.len() - i,
    {
        let b: u32 = data[i] as u32;
        let mixed: u32 = c ^ b;
        assert((c ^ b) & 0xff < 256) by (bit_vector);
        proof {
            lemma_shift8_by_table(mixed);
            assert((c ^ b) >> 8 == c >> 8) by (bit_vector)
                requires
                    b < 256,
            ;
            assert(data@.take(i + 1).drop_last() =~= data@.take(i as int));
        }
        c = table[(mixed & 0xff) as usize] ^ (c >> 8);
        i = i + 1;
    }
    assert(data@.take(i as int) =~= data@);
    !c
}

/// Nothing sums to zero.
pub proof fn empty_sums_to_zero()
    ensures
        crc(Seq::empty()) == 0,
{
    assert(!0xffff_ffffu32 == 0u32) by (bit_vector);
}

/// A checksum goes on bit by bit: a byte more is added into the low bits of the
/// register, which then shifts eight times, and takes the polynomial in whenever
/// a set bit leaves.
pub proof fn a_checksum_goes_on(data: Seq<u8>, b: u8, c: u32)
    ensures
        !crc(data.push(b)) == shift8(!crc(data) ^ (b as u32)),
        c % 2 == 0 ==> shift(c) == c / 2,
        c % 2 == 1 ==> shift(c) == (c / 2) ^ 0x82f6_3b78u32,
        shift8(c) == shift(shift(shift(shift(shift(shift(shift(shift(c)))))))),
{
    assert(data.push(b).drop_last() =~= data);
    let r = register(data);
    let q = register(data.push(b));
    assert(!(!r) == r) by (bit_vector);
    assert(!(!q) == q) by (bit_vector);
    assert(c & 1 == c % 2) by (bit_vector);
    assert(c >> 1 == c / 2) by (bit_vector);
    let h = c / 2;
    assert(0x82f6_3b78u32 ^ h == h ^ 0x82f6_3b78u32) by (bit_vector);
}

/// The register forgets nothing: different registers stay different.
proof fn lemma_shift8_injective(a: u32, b: u32)
    requires
        shift8(a) == shift8(b),
    ensures
        a == b,
{
    assert(forall|x: u32, y: u32| #[trigger] shift(x) == #[trigger] shift(y) ==> x == y)
        by (bit_vector);
}

proof fn lemma_registers_differ(x: Seq<u8>, y: Seq<u8>, i: int)
    requires
        x.len() == y.len(),
        0 <= i < x.len(),
        x[i] != y[i],
        forall|k: int| 0 <= k < x.len() && k != i ==> #[trigger] x[k] == y[k],
    ensures
        register(x) != register(y),
    decreases x.len(),
{
    let n = x.len() - 1;
    let (a, b) = (register(x.drop_last()), register(y.drop_last()));
    let (p, q) = (x.last() as u32, y.last() as u32);
    assert(x[n] == x.last() && y[n] == y.last());
    if i == n {
        assert(x.drop_last() =~= y.drop_last());
        assert(a ^ p == a ^ q ==> p == q) by (bit_vector);
    } else {
        lemma_registers_differ(x.drop_last(), y.drop_last(), i);
        assert(a ^ p == b ^ p ==> a == b) by (bit_vector);
    }
    if register(x) == register(y) {
        lemma_shift8_injective(a ^ p, b ^ q);
    }
}

/// A byte that changed shows: two texts of one length that differ in one byte
/// have different checksums.
pub proof fn a_changed_byte_changes_the_checksum(x: Seq<u8>, y: Seq<u8>, i: int)
    requires
        x.len() == y.len(),
        0 <= i < x.len(),
        x[i] != y[i],
        forall|k: int| 0 <= k < x.len() && k != i ==> #[trigger] x[k] == y[k],
    ensures
        crc(x) != crc(y),
{
    lemma_registers_differ(x, y, i);
    let (a, b) = (register(x), register(y));
    assert(!a == !b ==> a == b) by (bit_vector);
}

} // verus!
