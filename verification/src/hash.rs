//! FNV-1a over bytes: the one hash behind placement.

use crate::bytes;
use vstd::prelude::*;

verus! {

pub const FNV_OFFSET: u64 = 0xcbf2_9ce4_8422_2325;

pub const FNV_PRIME: u64 = 0x0000_0100_0000_01b3;

/// The hash state after one byte.
pub open spec fn fnv_step(state: u64, b: u8) -> u64 {
    ((state ^ (b as u64)) * FNV_PRIME % 0x1_0000_0000_0000_0000) as u64
}

/// The hash state after `bytes`, from `state`.
pub open spec fn fnv(state: u64, bytes: Seq<u8>) -> u64
    decreases bytes.len(),
{
    if bytes.len() == 0 {
        state
    } else {
        fnv_step(fnv(state, bytes.drop_last()), bytes.last())
    }
}

/// The placement hash: the id's 16 bytes, then the key's 8, lowest first.
pub open spec fn id_hash(a: u128, b: u64) -> u64 {
    fnv(fnv(FNV_OFFSET, bytes::le(a as nat, 16)), bytes::le(b as nat, 8))
}

pub struct Fnv1a(u64);

impl View for Fnv1a {
    type V = u64;

    closed spec fn view(&self) -> u64 {
        self.0
    }
}

impl Fnv1a {
    pub fn new() -> (h: Self)
        ensures
            h@ == FNV_OFFSET,
    {
        Fnv1a(FNV_OFFSET)
    }

    pub fn write(&mut self, bytes: &[u8])
        ensures
            final(self)@ == fnv(old(self)@, bytes@),
    {
        let ghost start = self.0;
        let mut i: usize = 0;
        assert(bytes@.take(0) =~= Seq::empty());
        while i < bytes.len()
            invariant
                i <= bytes@.len(),
                self.0 == fnv(start, bytes@.take(i as int)),
            decreases bytes@.len() - i,
        {
            let b: u64 = bytes[i] as u64;
            assert(bytes@.take(i + 1).drop_last() =~= bytes@.take(i as int));
            self.0 = (self.0 ^ b).wrapping_mul(FNV_PRIME);
            i = i + 1;
        }
        assert(bytes@.take(i as int) =~= bytes@);
    }

    pub fn finish(&self) -> (h: u64)
        ensures
            h == self@,
    {
        self.0
    }
}

impl Default for Fnv1a {
    fn default() -> (h: Self)
        ensures
            h@ == FNV_OFFSET,
    {
        Self::new()
    }
}

/// Hashes a 128-bit id together with a 64-bit key.
pub fn hash_u128_u64(a: u128, b: u64) -> (h: u64)
    ensures
        h == id_hash(a, b),
{
    let mut id: Vec<u8> = Vec::new();
    bytes::push_le(&mut id, a, 16);
    let mut key: Vec<u8> = Vec::new();
    bytes::push_le(&mut key, b as u128, 8);
    proof {
        assert(id@ =~= bytes::le(a as nat, 16));
        assert(key@ =~= bytes::le(b as nat, 8));
    }
    let mut state = Fnv1a::new();
    state.write(id.as_slice());
    state.write(key.as_slice());
    state.finish()
}

// ---------------------------------------------------------------------
// Laws

/// Hashing goes byte by byte: more bytes go on from where the others led, and
/// one byte is mixed in and multiplied, modulo `2^64`.
pub proof fn hashing_goes_on(state: u64, a: Seq<u8>, b: Seq<u8>, x: u8)
    ensures
        fnv(state, a + b) == fnv(fnv(state, a), b),
        fnv(state, seq![x]) == (state ^ (x as u64)) as int * 0x100_0000_01b3
            % 0x1_0000_0000_0000_0000,
        fnv(state, Seq::empty()) == state,
    decreases b.len(),
{
    assert(seq![x].drop_last() =~= Seq::<u8>::empty());
    assert(fnv(state, Seq::<u8>::empty()) == state);
    if b.len() > 0 {
        hashing_goes_on(state, a, b.drop_last(), x);
        assert((a + b).drop_last() =~= a + b.drop_last());
    } else {
        assert(a + b =~= a);
    }
}

/// The placement hash of an id and a key is the hash of their 24 bytes, each
/// number lowest byte first.
pub proof fn an_id_and_a_key_hash_as_their_bytes(a: u128, b: u64, image: Seq<u8>)
    requires
        image.len() == 24,
        bytes::le_value(image.take(16)) == a,
        bytes::le_value(image.skip(16)) == b,
    ensures
        id_hash(a, b) == fnv(0xcbf2_9ce4_8422_2325, image),
{
    bytes::lemma_le_of_value(image.take(16));
    bytes::lemma_le_of_value(image.skip(16));
    assert(image.take(16) + image.skip(16) =~= image);
    hashing_goes_on(FNV_OFFSET, image.take(16), image.skip(16), 0);
}

} // verus!
