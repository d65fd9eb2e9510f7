//! Encoding and decoding of metadata operations and all they embed, in the
//! byte form of `wire`.
//!
//! The public decoders ask for bytes that hold a whole value. Whoever reads
//! bytes of unknown origin uses `try_decode_op` and `try_decode_inode_record`,
//! which say so when they do not.

use crate::bytes;
use crate::proto::{
    self, ChunkPointer, DataLocator, DiskClass, DiskEntry, DiskRoles, DiskState, Extent, InodeMode,
    InodeRecord, MetaGroup, MetaOp, PoolMap, RedundancyScheme, ReplicaSlot, Uuid,
};
use crate::wire;
use std::collections::HashMap;
use vstd::prelude::*;
use vstd::utf8::*;

verus! {

broadcast use crate::bytes::lemma_le_len;

/// The length of a list as it is written down.
fn len32(n: usize) -> (r: u32)
    ensures
        r == wire::len32(n as nat),
{
    let m: u64 = n as u64;
    assert(m as u32 == m % 0x1_0000_0000) by (bit_vector);
    m as u32
}

pub struct Encoder(Vec<u8>);

impl View for Encoder {
    type V = Seq<u8>;

    closed spec fn view(&self) -> Seq<u8> {
        self.0@
    }
}

impl Encoder {
    pub fn new() -> (e: Self)
        ensures
            e@ == Seq::<u8>::empty(),
    {
        Encoder(Vec::new())
    }

    pub fn u8(&mut self, v: u8)
        ensures
            final(self)@ == old(self)@ + seq![v],
    {
        self.0.push(v);
        assert(self@ =~= old(self)@ + seq![v]);
    }

    pub fn bool(&mut self, v: bool)
        ensures
            final(self)@ == old(self)@ + seq![if v { 1u8 } else { 0u8 }],
    {
        if v {
            self.u8(1);
        } else {
            self.u8(0);
        }
    }

    pub fn u32(&mut self, v: u32)
        ensures
            final(self)@ == old(self)@ + wire::u32_bytes(v),
    {
        bytes::push_le(&mut self.0, v as u128, 4);
    }

    pub fn u64(&mut self, v: u64)
        ensures
            final(self)@ == old(self)@ + wire::u64_bytes(v),
    {
        bytes::push_le(&mut self.0, v as u128, 8);
    }

    pub fn u128(&mut self, v: u128)
        ensures
            final(self)@ == old(self)@ + wire::u128_bytes(v),
    {
        bytes::push_le(&mut self.0, v, 16);
    }

    /// A binary64 number, given by its bits.
    pub fn float_bits(&mut self, bits: u64)
        ensures
            final(self)@ == old(self)@ + wire::u64_bytes(bits),
    {
        self.u64(bits);
    }

    pub fn bytes(&mut self, b: &[u8])
        ensures
            final(self)@ == old(self)@ + (wire::u32_bytes(wire::len32(b@.len())) + b@),
    {
        self.u32(len32(b.len()));
        let ghost mid = self@;
        self.0.extend_from_slice(b);
        proof {
            assert(self.0@ =~= mid + b@);
            wire::lemma_add_assoc(
                old(self)@,
                wire::u32_bytes(wire::len32(b@.len())),
                b@,
            );
        }
    }

    pub fn str(&mut self, s: &str)
        ensures
            final(self)@ == old(self)@ + wire::str_bytes(s@),
    {
        self.bytes(s.as_bytes());
    }

    pub fn into_vec(self) -> (v: Vec<u8>)
        ensures
            v@ == self@,
    {
        self.0
    }
}

impl Default for Encoder {
    fn default() -> (e: Self)
        ensures
            e@ == Seq::<u8>::empty(),
    {
        Self::new()
    }
}

pub struct Decoder<'a> {
    buf: &'a [u8],
    pos: usize,
}

/// The text that a byte sequence is the UTF-8 form of.
///
/// `String::from_utf8` decides whether the bytes are UTF-8, and gives back the
/// text that they encode.
#[verifier::external_body]
pub(crate) fn string_from_utf8(raw: Vec<u8>) -> (r: Option<String>)
    ensures
        match r {
            Some(s) => valid_utf8(raw@) && s@ == decode_utf8(raw@),
            None => !valid_utf8(raw@),
        },
{
    String::from_utf8(raw).ok()
}

impl<'a> Decoder<'a> {
    #[verifier::type_invariant]
    spec fn inside(&self) -> bool {
        self.pos <= self.buf@.len()
    }

    /// The bytes that are still to be read.
    pub closed spec fn rest(&self) -> Seq<u8> {
        self.buf@.skip(self.pos as int)
    }

    pub fn new(buf: &'a [u8]) -> (d: Self)
        ensures
            d.rest() == buf@,
    {
        let d = Decoder { buf, pos: 0 };
        assert(d.rest() =~= buf@);
        d
    }

    fn left(&self) -> (n: usize)
        ensures
            n == self.rest().len(),
    {
        proof {
            use_type_invariant(self);
        }
        self.buf.len() - self.pos
    }

    /// Reads an integer of `n` bytes.
    fn integer(&mut self, n: usize) -> (v: u128)
        requires
            n <= 16,
            n <= old(self).rest().len(),
        ensures
            v == bytes::le_value(old(self).rest().take(n as int)),
            v < bytes::pow256(n as nat),
            final(self).rest() == old(self).rest().skip(n as int),
    {
        proof {
            use_type_invariant(&*self);
        }
        let total: usize = self.buf.len();
        let v: u128 = bytes::read_le(self.buf, self.pos, n);
        proof {
            assert(self.buf@.subrange(self.pos as int, self.pos + n) =~= self.rest().take(
                n as int,
            ));
            assert(self.buf@.skip(self.pos + n) =~= self.rest().skip(n as int));
        }
        self.pos = self.pos + n;
        v
    }

    pub fn u8(&mut self) -> (v: u8)
        requires
            old(self).rest().len() >= 1,
        ensures
            wire::get_u8(old(self).rest()) == Some((v, final(self).rest())),
    {
        proof {
            use_type_invariant(&*self);
            assert(self.buf@.skip(self.pos + 1) =~= self.rest().skip(1));
        }
        let v: u8 = self.buf[self.pos];
        self.pos = self.pos + 1;
        v
    }

    pub fn bool(&mut self) -> (v: bool)
        requires
            old(self).rest().len() >= 1,
        ensures
            v == (old(self).rest()[0] != 0),
            final(self).rest() == old(self).rest().skip(1),
    {
        self.u8() != 0
    }

    pub fn u32(&mut self) -> (v: u32)
        requires
            old(self).rest().len() >= 4,
        ensures
            wire::get_u32(old(self).rest()) == Some((v, final(self).rest())),
    {
        proof {
            bytes::lemma_pow256_values();
        }
        self.integer(4) as u32
    }

    pub fn u64(&mut self) -> (v: u64)
        requires
            old(self).rest().len() >= 8,
        ensures
            wire::get_u64(old(self).rest()) == Some((v, final(self).rest())),
    {
        proof {
            bytes::lemma_pow256_values();
        }
        self.integer(8) as u64
    }

    pub fn u128(&mut self) -> (v: u128)
        requires
            old(self).rest().len() >= 16,
        ensures
            wire::get_u128(old(self).rest()) == Some((v, final(self).rest())),
    {
        self.integer(16)
    }

    /// A binary64 number, given by its bits.
    pub fn float_bits(&mut self) -> (bits: u64)
        requires
            old(self).rest().len() >= 8,
        ensures
            wire::get_u64(old(self).rest()) == Some((bits, final(self).rest())),
    {
        self.u64()
    }

    pub fn bytes(&mut self) -> (v: Vec<u8>)
        requires
            wire::get_bytes(old(self).rest()) is Some,
        ensures
            wire::get_bytes(old(self).rest()) == Some((v@, final(self).rest())),
    {
        self.try_bytes().unwrap()
    }

    pub fn str(&mut self) -> (s: String)
        requires
            wire::get_str(old(self).rest()) is Some,
        ensures
            wire::get_str(old(self).rest()) == Some((s@, final(self).rest())),
    {
        self.try_str().unwrap()
    }

    fn try_u8(&mut self) -> (r: Option<u8>)
        ensures
            got(wire::get_u8(old(self).rest()), r, final(self).rest()),
    {
        if self.left() < 1 {
            return None;
        }
        Some(self.u8())
    }

    fn try_u32(&mut self) -> (r: Option<u32>)
        ensures
            got(wire::get_u32(old(self).rest()), r, final(self).rest()),
    {
        if self.left() < 4 {
            return None;
        }
        Some(self.u32())
    }

    fn try_u64(&mut self) -> (r: Option<u64>)
        ensures
            got(wire::get_u64(old(self).rest()), r, final(self).rest()),
    {
        if self.left() < 8 {
            return None;
        }
        Some(self.u64())
    }

    fn try_u128(&mut self) -> (r: Option<u128>)
        ensures
            got(wire::get_u128(old(self).rest()), r, final(self).rest()),
    {
        if self.left() < 16 {
            return None;
        }
        Some(self.u128())
    }

    fn try_bytes(&mut self) -> (r: Option<Vec<u8>>)
        ensures
            reads(wire::get_bytes(old(self).rest()), r, final(self).rest()),
    {
        let n: u32 = self.try_u32()?;
        let left: usize = self.left();
        if (left as u64) < n as u64 {
            return None;
        }
        let len: usize = n as usize;
        let total: usize = self.buf.len();
        proof {
            use_type_invariant(&*self);
        }
        let v: Vec<u8> = vstd::slice::slice_to_vec(
            vstd::slice::slice_subrange(self.buf, self.pos, self.pos + len),
        );
        proof {
            assert(v@ =~= self.rest().take(len as int));
            assert(self.buf@.skip(self.pos + len) =~= self.rest().skip(len as int));
        }
        self.pos = self.pos + len;
        Some(v)
    }

    fn try_str(&mut self) -> (r: Option<String>)
        ensures
            reads(wire::get_str(old(self).rest()), r, final(self).rest()),
    {
        let raw: Vec<u8> = self.try_bytes()?;
        string_from_utf8(raw)
    }
}

/// `r` is what the parser `p` found, and `after` is what it left.
pub open spec fn got<T>(p: Option<(T, Seq<u8>)>, r: Option<T>, after: Seq<u8>) -> bool {
    match p {
        Some((v, rest)) => r == Some(v) && after == rest,
        None => r is None,
    }
}

/// `r` stands for what the parser `p` found, and `after` is what it left.
pub open spec fn reads<T: View>(p: Option<(T::V, Seq<u8>)>, r: Option<T>, after: Seq<u8>) -> bool {
    match p {
        Some((v, rest)) => r is Some && r->Some_0@ == v && after == rest,
        None => r is None,
    }
}

// ---------------------------------------------------------------------
// Redundancy schemes

fn encode_disk_class(e: &mut Encoder, c: DiskClass)
    ensures
        final(e)@ == old(e)@ + wire::class_bytes(c),
{
    match c {
        DiskClass::Hdd => e.u8(0),
        DiskClass::Ssd => e.u8(1),
        DiskClass::Nvme => e.u8(2),
    }
}

fn try_disk_class(d: &mut Decoder) -> (r: Option<DiskClass>)
    ensures
        got(wire::get_class(old(d).rest()), r, final(d).rest()),
{
    match d.try_u8()? {
        0 => Some(DiskClass::Hdd),
        1 => Some(DiskClass::Ssd),
        2 => Some(DiskClass::Nvme),
        _ => None,
    }
}

fn encode_replica_slot(e: &mut Encoder, slot: &ReplicaSlot)
    ensures
        final(e)@ == old(e)@ + wire::slot_bytes(*slot),
{
    broadcast use crate::wire::lemma_add_assoc;

    match slot {
        ReplicaSlot::AnyOfClass(None) => e.u8(0),
        ReplicaSlot::AnyOfClass(Some(c)) => {
            e.u8(1);
            encode_disk_class(e, *c);
        },
        ReplicaSlot::Pinned(id) => {
            e.u8(2);
            e.u128(id.0);
        },
    }
}

fn try_replica_slot(d: &mut Decoder) -> (r: Option<ReplicaSlot>)
    ensures
        got(wire::get_slot(old(d).rest()), r, final(d).rest()),
{
    match d.try_u8()? {
        0 => Some(ReplicaSlot::AnyOfClass(None)),
        1 => Some(ReplicaSlot::AnyOfClass(Some(try_disk_class(d)?))),
        2 => Some(ReplicaSlot::Pinned(Uuid(d.try_u128()?))),
        _ => None,
    }
}

fn encode_redundancy_scheme(e: &mut Encoder, s: &RedundancyScheme)
    ensures
        final(e)@ == old(e)@ + wire::scheme_bytes(s@),
{
    broadcast use crate::wire::lemma_add_assoc;

    let ghost start = e@;
    match s {
        RedundancyScheme::Replicated(slots) => {
            e.u8(0);
            e.u32(len32(slots.len()));
            let ghost head = e@;
            let mut i: usize = 0;
            assert(e@ =~= head + wire::list_bytes(slots@.take(0), wire::put_slot()));
            while i < slots.len()
                invariant
                    i <= slots@.len(),
                    e@ == head + wire::list_bytes(slots@.take(i as int), wire::put_slot()),
                decreases slots@.len() - i,
            {
                encode_replica_slot(e, &slots[i]);
                i = i + 1;
                assert(slots@.take(i as int).drop_last() =~= slots@.take(i - 1));
            }
            assert(slots@.take(i as int) =~= slots@);
        },
        RedundancyScheme::ErasureCoded { data_shards, parity_shards } => {
            e.u8(1);
            e.u8(*data_shards);
            e.u8(*parity_shards);
        },
    }
}

#[verifier::loop_isolation(false)]
fn try_redundancy_scheme(d: &mut Decoder) -> (r: Option<RedundancyScheme>)
    ensures
        reads(wire::get_scheme(old(d).rest()), r, final(d).rest()),
{
    match d.try_u8()? {
        0 => {
            let n: u32 = d.try_u32()?;
            let ghost start = d.rest();
            let mut slots: Vec<ReplicaSlot> = Vec::new();
            let mut i: u32 = 0;
            while i < n
                invariant
                    i <= n,
                    wire::get_list(start, i as nat, wire::slot_getter()) == Some(
                        (slots@, d.rest()),
                    ),
                decreases n - i,
            {
                match try_replica_slot(d) {
                    Some(slot) => slots.push(slot),
                    None => {
                        proof {
                            wire::lemma_get_list_stops(
                                start,
                                (i + 1) as nat,
                                n as nat,
                                wire::slot_getter(),
                            );
                        }
                        return None;
                    },
                }
                i = i + 1;
            }
            Some(RedundancyScheme::Replicated(slots))
        },
        1 => Some(
            RedundancyScheme::ErasureCoded { data_shards: d.try_u8()?, parity_shards: d.try_u8()? },
        ),
        _ => None,
    }
}

// ---------------------------------------------------------------------
// Chunks and extents

fn encode_replica_offsets(e: &mut Encoder, replicas: &Vec<(Uuid, u64)>)
    ensures
        final(e)@ == old(e)@ + wire::replicas_bytes(replicas@),
{
    broadcast use crate::wire::lemma_add_assoc;

    e.u32(len32(replicas.len()));
    let ghost head = e@;
    let mut i: usize = 0;
    assert(e@ =~= head + wire::list_bytes(replicas@.take(0), wire::put_replica()));
    while i < replicas.len()
        invariant
            i <= replicas@.len(),
            e@ == head + wire::list_bytes(replicas@.take(i as int), wire::put_replica()),
        decreases replicas@.len() - i,
    {
        e.u128(replicas[i].0.0);
        e.u64(replicas[i].1);
        i = i + 1;
        assert(replicas@.take(i as int).drop_last() =~= replicas@.take(i - 1));
    }
    assert(replicas@.take(i as int) =~= replicas@);
}

#[verifier::loop_isolation(false)]
fn try_replica_offsets(d: &mut Decoder) -> (r: Option<Vec<(Uuid, u64)>>)
    ensures
        reads(wire::get_replicas(old(d).rest()), r, final(d).rest()),
{
    let n: u32 = d.try_u32()?;
    let ghost start = d.rest();
    let mut replicas: Vec<(Uuid, u64)> = Vec::new();
    let mut i: u32 = 0;
    while i < n
        invariant
            i <= n,
            wire::get_list(start, i as nat, wire::replica_getter()) == Some((replicas@, d.rest())),
        decreases n - i,
    {
        match try_replica(d) {
            Some(pair) => replicas.push(pair),
            None => {
                proof {
                    wire::lemma_get_list_stops(
                        start,
                        (i + 1) as nat,
                        n as nat,
                        wire::replica_getter(),
                    );
                }
                return None;
            },
        }
        i = i + 1;
    }
    Some(replicas)
}

fn try_replica(d: &mut Decoder) -> (r: Option<(Uuid, u64)>)
    ensures
        got(wire::get_replica(old(d).rest()), r, final(d).rest()),
{
    let id: u128 = d.try_u128()?;
    let offset: u64 = d.try_u64()?;
    Some((Uuid(id), offset))
}

fn encode_chunk_pointer(e: &mut Encoder, c: &ChunkPointer)
    ensures
        final(e)@ == old(e)@ + wire::chunk_bytes(c@),
{
    broadcast use crate::wire::lemma_add_assoc;

    e.u64(c.chunk_seq);
    encode_replica_offsets(e, &c.replicas);
    e.u32(c.len);
    e.u32(c.checksum);
}

fn try_chunk_pointer(d: &mut Decoder) -> (r: Option<ChunkPointer>)
    ensures
        reads(wire::get_chunk(old(d).rest()), r, final(d).rest()),
{
    let chunk_seq: u64 = d.try_u64()?;
    let replicas = try_replica_offsets(d)?;
    let len: u32 = d.try_u32()?;
    let checksum: u32 = d.try_u32()?;
    Some(ChunkPointer { chunk_seq, replicas, len, checksum })
}

pub fn encode_extent(e: &mut Encoder, x: &Extent)
    ensures
        final(e)@ == old(e)@ + wire::extent_bytes(x@),
{
    broadcast use crate::wire::lemma_add_assoc;

    e.u64(x.file_offset);
    e.u32(x.len);
    encode_replica_offsets(e, &x.replicas);
    e.u32(x.checksum);
}

fn try_extent(d: &mut Decoder) -> (r: Option<Extent>)
    ensures
        reads(wire::get_extent(old(d).rest()), r, final(d).rest()),
{
    let file_offset: u64 = d.try_u64()?;
    let len: u32 = d.try_u32()?;
    let replicas = try_replica_offsets(d)?;
    let checksum: u32 = d.try_u32()?;
    Some(Extent { file_offset, len, replicas, checksum })
}

pub fn decode_extent(d: &mut Decoder) -> (x: Extent)
    requires
        wire::get_extent(old(d).rest()) is Some,
    ensures
        wire::get_extent(old(d).rest()) == Some((x@, final(d).rest())),
{
    try_extent(d).unwrap()
}

fn encode_extents(e: &mut Encoder, extents: &Vec<Extent>)
    ensures
        final(e)@ == old(e)@ + wire::extents_bytes(proto::views(extents@)),
{
    broadcast use crate::wire::lemma_add_assoc;

    e.u32(len32(extents.len()));
    let ghost head = e@;
    let ghost all = proto::views(extents@);
    let mut i: usize = 0;
    assert(e@ =~= head + wire::list_bytes(all.take(0), wire::put_extent()));
    while i < extents.len()
        invariant
            i <= extents@.len(),
            all == proto::views(extents@),
            e@ == head + wire::list_bytes(all.take(i as int), wire::put_extent()),
        decreases extents@.len() - i,
    {
        encode_extent(e, &extents[i]);
        i = i + 1;
        assert(all.take(i as int).drop_last() =~= all.take(i - 1));
    }
    assert(all.take(i as int) =~= all);
}

#[verifier::loop_isolation(false)]
fn try_extents(d: &mut Decoder) -> (r: Option<Vec<Extent>>)
    ensures
        match wire::get_extents(old(d).rest()) {
            Some((xs, rest)) => r is Some && proto::views(r->Some_0@) == xs && final(d).rest()
                == rest,
            None => r is None,
        },
{
    let n: u32 = d.try_u32()?;
    let ghost start = d.rest();
    let mut extents: Vec<Extent> = Vec::new();
    let mut i: u32 = 0;
    assert(proto::views(extents@) =~= Seq::empty());
    while i < n
        invariant
            i <= n,
            wire::get_list(start, i as nat, wire::extent_getter()) == Some(
                (proto::views(extents@), d.rest()),
            ),
        decreases n - i,
    {
        let ghost before = extents@;
        match try_extent(d) {
            Some(x) => {
                extents.push(x);
                assert(proto::views(extents@) =~= proto::views(before).push(x@));
            },
            None => {
                proof {
                    wire::lemma_get_list_stops(
                        start,
                        (i + 1) as nat,
                        n as nat,
                        wire::extent_getter(),
                    );
                }
                return None;
            },
        }
        i = i + 1;
    }
    Some(extents)
}

// ---------------------------------------------------------------------
// Inodes

fn encode_inode_mode(e: &mut Encoder, m: InodeMode)
    ensures
        final(e)@ == old(e)@ + wire::mode_bytes(m),
{
    match m {
        InodeMode::AppendOnly => e.u8(0),
        InodeMode::Converting => e.u8(1),
        InodeMode::Writable => e.u8(2),
    }
}

fn try_inode_mode(d: &mut Decoder) -> (r: Option<InodeMode>)
    ensures
        got(wire::get_mode(old(d).rest()), r, final(d).rest()),
{
    match d.try_u8()? {
        0 => Some(InodeMode::AppendOnly),
        1 => Some(InodeMode::Converting),
        2 => Some(InodeMode::Writable),
        _ => None,
    }
}

fn encode_data_locator(e: &mut Encoder, l: &DataLocator)
    ensures
        final(e)@ == old(e)@ + wire::locator_bytes(l@),
{
    broadcast use crate::wire::lemma_add_assoc;

    match l {
        DataLocator::ChunkLog(chunks) => {
            e.u8(0);
            e.u32(len32(chunks.len()));
            let ghost head = e@;
            let ghost all = proto::views(chunks@);
            let mut i: usize = 0;
            assert(e@ =~= head + wire::list_bytes(all.take(0), wire::put_chunk()));
            while i < chunks.len()
                invariant
                    i <= chunks@.len(),
                    all == proto::views(chunks@),
                    e@ == head + wire::list_bytes(all.take(i as int), wire::put_chunk()),
                decreases chunks@.len() - i,
            {
                encode_chunk_pointer(e, &chunks[i]);
                i = i + 1;
                assert(all.take(i as int).drop_last() =~= all.take(i - 1));
            }
            assert(all.take(i as int) =~= all);
        },
        DataLocator::Extents(extents) => {
            e.u8(1);
            encode_extents(e, extents);
        },
    }
}

#[verifier::loop_isolation(false)]
fn try_data_locator(d: &mut Decoder) -> (r: Option<DataLocator>)
    ensures
        reads(wire::get_locator(old(d).rest()), r, final(d).rest()),
{
    match d.try_u8()? {
        0 => {
            let n: u32 = d.try_u32()?;
            let ghost start = d.rest();
            let mut chunks: Vec<ChunkPointer> = Vec::new();
            let mut i: u32 = 0;
            assert(proto::views(chunks@) =~= Seq::empty());
            while i < n
                invariant
                    i <= n,
                    wire::get_list(start, i as nat, wire::chunk_getter()) == Some(
                        (proto::views(chunks@), d.rest()),
                    ),
                decreases n - i,
            {
                let ghost before = chunks@;
                match try_chunk_pointer(d) {
                    Some(c) => {
                        chunks.push(c);
                        assert(proto::views(chunks@) =~= proto::views(before).push(c@));
                    },
                    None => {
                        proof {
                            wire::lemma_get_list_stops(
                                start,
                                (i + 1) as nat,
                                n as nat,
                                wire::chunk_getter(),
                            );
                        }
                        return None;
                    },
                }
                i = i + 1;
            }
            Some(DataLocator::ChunkLog(chunks))
        },
        1 => Some(DataLocator::Extents(try_extents(d)?)),
        _ => None,
    }
}

pub fn encode_inode_record(e: &mut Encoder, r: &InodeRecord)
    ensures
        final(e)@ == old(e)@ + wire::inode_bytes(r@),
{
    let ghost start = e@;
    e.u64(r.inode);
    let ghost p1 = wire::u64_bytes(r.inode);
    encode_inode_mode(e, r.mode);
    let ghost p2 = p1 + wire::mode_bytes(r.mode);
    e.u64(r.size);
    let ghost p3 = p2 + wire::u64_bytes(r.size);
    encode_redundancy_scheme(e, &r.redundancy);
    let ghost p4 = p3 + wire::scheme_bytes(r.redundancy@);
    encode_data_locator(e, &r.data);
    let ghost p5 = p4 + wire::locator_bytes(r.data@);
    e.u32(r.uid);
    let ghost p6 = p5 + wire::u32_bytes(r.uid);
    e.u32(r.gid);
    let ghost p7 = p6 + wire::u32_bytes(r.gid);
    e.u32(r.unix_mode);
    let ghost p8 = p7 + wire::u32_bytes(r.unix_mode);
    e.u64(r.mtime_unix);
    proof {
        wire::lemma_add_assoc(start, p1, wire::mode_bytes(r.mode));
        wire::lemma_add_assoc(start, p2, wire::u64_bytes(r.size));
        wire::lemma_add_assoc(start, p3, wire::scheme_bytes(r.redundancy@));
        wire::lemma_add_assoc(start, p4, wire::locator_bytes(r.data@));
        wire::lemma_add_assoc(start, p5, wire::u32_bytes(r.uid));
        wire::lemma_add_assoc(start, p6, wire::u32_bytes(r.gid));
        wire::lemma_add_assoc(start, p7, wire::u32_bytes(r.unix_mode));
        wire::lemma_add_assoc(start, p8, wire::u64_bytes(r.mtime_unix));
    }
}

fn try_inode_record(d: &mut Decoder) -> (r: Option<InodeRecord>)
    ensures
        reads(wire::get_inode(old(d).rest()), r, final(d).rest()),
{
    let inode: u64 = d.try_u64()?;
    let mode = try_inode_mode(d)?;
    let size: u64 = d.try_u64()?;
    let redundancy = try_redundancy_scheme(d)?;
    let data = try_data_locator(d)?;
    let uid: u32 = d.try_u32()?;
    let gid: u32 = d.try_u32()?;
    let unix_mode: u32 = d.try_u32()?;
    let mtime_unix: u64 = d.try_u64()?;
    Some(
        InodeRecord { inode, mode, size, redundancy, data, uid, gid, unix_mode, mtime_unix },
    )
}

pub fn decode_inode_record(d: &mut Decoder) -> (r: InodeRecord)
    requires
        wire::get_inode(old(d).rest()) is Some,
    ensures
        wire::get_inode(old(d).rest()) == Some((r@, final(d).rest())),
{
    try_inode_record(d).unwrap()
}

/// The record that `bytes` starts with; `None` where there is none.
pub fn try_decode_inode_record(bytes: &[u8]) -> (r: Option<InodeRecord>)
    ensures
        match wire::get_inode(bytes@) {
            Some((v, _)) => r is Some && r->Some_0@ == v,
            None => r is None,
        },
{
    let mut d = Decoder::new(bytes);
    try_inode_record(&mut d)
}

// ---------------------------------------------------------------------
// The pool

fn encode_disk_roles(e: &mut Encoder, r: DiskRoles)
    ensures
        final(e)@ == old(e)@ + wire::roles_bytes(r),
{
    let data: u8 = if r.data {
        1
    } else {
        0
    };
    let metadata: u8 = if r.metadata {
        2
    } else {
        0
    };
    e.u8(data + metadata);
}

fn try_disk_roles(d: &mut Decoder) -> (r: Option<DiskRoles>)
    ensures
        got(wire::get_roles(old(d).rest()), r, final(d).rest()),
{
    let n: u8 = d.try_u8()?;
    Some(DiskRoles { data: n % 2 == 1, metadata: (n / 2) % 2 == 1 })
}

fn encode_disk_state(e: &mut Encoder, s: DiskState)
    ensures
        final(e)@ == old(e)@ + wire::state_bytes(s),
{
    match s {
        DiskState::Active => e.u8(0),
        DiskState::Draining => e.u8(1),
        DiskState::Dead => e.u8(2),
    }
}

fn try_disk_state(d: &mut Decoder) -> (r: Option<DiskState>)
    ensures
        got(wire::get_state(old(d).rest()), r, final(d).rest()),
{
    match d.try_u8()? {
        0 => Some(DiskState::Active),
        1 => Some(DiskState::Draining),
        2 => Some(DiskState::Dead),
        _ => None,
    }
}

fn encode_disk_entry(e: &mut Encoder, id: u128, entry: &DiskEntry)
    ensures
        final(e)@ == old(e)@ + wire::entry_bytes((id, *entry)),
{
    let ghost start = e@;
    e.u128(id);
    let ghost p1 = wire::u128_bytes(id);
    encode_disk_roles(e, entry.roles);
    let ghost p2 = p1 + wire::roles_bytes(entry.roles);
    encode_disk_state(e, entry.state);
    let ghost p3 = p2 + wire::state_bytes(entry.state);
    encode_disk_class(e, entry.class);
    let ghost p4 = p3 + wire::class_bytes(entry.class);
    e.float_bits(entry.weight_bits);
    let ghost p5 = p4 + wire::u64_bytes(entry.weight_bits);
    e.u64(entry.used_bytes);
    let ghost p6 = p5 + wire::u64_bytes(entry.used_bytes);
    e.u64(entry.capacity_bytes);
    proof {
        wire::lemma_add_assoc(start, p1, wire::roles_bytes(entry.roles));
        wire::lemma_add_assoc(start, p2, wire::state_bytes(entry.state));
        wire::lemma_add_assoc(start, p3, wire::class_bytes(entry.class));
        wire::lemma_add_assoc(start, p4, wire::u64_bytes(entry.weight_bits));
        wire::lemma_add_assoc(start, p5, wire::u64_bytes(entry.used_bytes));
        wire::lemma_add_assoc(start, p6, wire::u64_bytes(entry.capacity_bytes));
    }
}

fn try_disk_entry(d: &mut Decoder) -> (r: Option<(u128, DiskEntry)>)
    ensures
        got(wire::get_entry(old(d).rest()), r, final(d).rest()),
{
    let id: u128 = d.try_u128()?;
    let roles = try_disk_roles(d)?;
    let state = try_disk_state(d)?;
    let class = try_disk_class(d)?;
    let weight_bits: u64 = d.try_u64()?;
    let used_bytes: u64 = d.try_u64()?;
    let capacity_bytes: u64 = d.try_u64()?;
    Some((id, DiskEntry { roles, state, class, weight_bits, used_bytes, capacity_bytes }))
}

/// Writes the pool map, its disks in the order in which the map is walked.
pub fn encode_pool_map(e: &mut Encoder, pm: &PoolMap)
    ensures
        exists|pairs: Seq<(u128, DiskEntry)>|
            proto::lists(pairs, pm@.disks) && final(e)@ == old(e)@ + #[trigger] wire::pool_bytes(
                pm@.epoch,
                pairs,
            ),
{
    let pairs = pm.entries();
    encode_pool_entries(e, pm.epoch, &pairs);
    assert(e@ == old(e)@ + wire::pool_bytes(pm@.epoch, pairs@));
}

/// Writes a pool map whose disks are listed in `pairs`.
pub fn encode_pool_entries(e: &mut Encoder, epoch: u64, pairs: &Vec<(u128, DiskEntry)>)
    ensures
        final(e)@ == old(e)@ + wire::pool_bytes(epoch, pairs@),
{
    broadcast use crate::wire::lemma_add_assoc;

    e.u64(epoch);
    e.u32(len32(pairs.len()));
    let ghost head = e@;
    let mut i: usize = 0;
    assert(e@ =~= head + wire::list_bytes(pairs@.take(0), wire::put_entry()));
    while i < pairs.len()
        invariant
            i <= pairs@.len(),
            e@ == head + wire::list_bytes(pairs@.take(i as int), wire::put_entry()),
        decreases pairs@.len() - i,
    {
        encode_disk_entry(e, pairs[i].0, &pairs[i].1);
        i = i + 1;
        assert(pairs@.take(i as int).drop_last() =~= pairs@.take(i - 1));
    }
    assert(pairs@.take(i as int) =~= pairs@);
}

#[verifier::loop_isolation(false)]
fn try_pool_map(d: &mut Decoder) -> (r: Option<PoolMap>)
    ensures
        reads(wire::get_pool(old(d).rest()), r, final(d).rest()),
{
    broadcast use vstd::std_specs::hash::group_hash_axioms;

    let epoch: u64 = d.try_u64()?;
    let n: u32 = d.try_u32()?;
    let ghost start = d.rest();
    let mut disks: HashMap<u128, DiskEntry> = HashMap::new();
    let mut i: u32 = 0;
    let mut pairs: Ghost<Seq<(u128, DiskEntry)>> = Ghost(Seq::empty());
    assert(disks@ =~= wire::map_of(pairs@));
    while i < n
        invariant
            i <= n,
            wire::get_list(start, i as nat, wire::entry_getter()) == Some((pairs@, d.rest())),
            disks@ == wire::map_of(pairs@),
        decreases n - i,
    {
        match try_disk_entry(d) {
            Some(pair) => {
                disks.insert(pair.0, pair.1);
                proof {
                    assert(pairs@.push(pair).drop_last() =~= pairs@);
                    pairs@ = pairs@.push(pair);
                }
            },
            None => {
                proof {
                    wire::lemma_get_list_stops(
                        start,
                        (i + 1) as nat,
                        n as nat,
                        wire::entry_getter(),
                    );
                }
                return None;
            },
        }
        i = i + 1;
    }
    Some(PoolMap { epoch, disks })
}

pub fn decode_pool_map(d: &mut Decoder) -> (pm: PoolMap)
    requires
        wire::get_pool(old(d).rest()) is Some,
    ensures
        wire::get_pool(old(d).rest()) == Some((pm@, final(d).rest())),
{
    try_pool_map(d).unwrap()
}

pub fn encode_meta_group(e: &mut Encoder, g: &MetaGroup)
    ensures
        final(e)@ == old(e)@ + wire::group_bytes(*g),
{
    broadcast use crate::wire::lemma_add_assoc;

    e.u128(g.primary.0);
    e.bool(g.backup.is_some());
    if let Some(backup) = g.backup {
        e.u128(backup.0);
    }
    e.u64(g.epoch);
}

fn try_meta_group(d: &mut Decoder) -> (r: Option<MetaGroup>)
    ensures
        got(wire::get_group(old(d).rest()), r, final(d).rest()),
{
    let primary: u128 = d.try_u128()?;
    let flag: u8 = d.try_u8()?;
    let backup: Option<Uuid> = if flag != 0 {
        Some(Uuid(d.try_u128()?))
    } else {
        None
    };
    let epoch: u64 = d.try_u64()?;
    Some(MetaGroup { primary: Uuid(primary), backup, epoch })
}

pub fn decode_meta_group(d: &mut Decoder) -> (g: MetaGroup)
    requires
        wire::get_group(old(d).rest()) is Some,
    ensures
        wire::get_group(old(d).rest()) == Some((g, final(d).rest())),
{
    try_meta_group(d).unwrap()
}

// ---------------------------------------------------------------------
// Operations

/// The byte form of an operation.
pub fn encode_op(op: &MetaOp) -> (v: Vec<u8>)
    ensures
        wire::encodes(op@, v@),
{
    let mut e = Encoder::new();
    match op {
        MetaOp::CreateInode(rec) => {
            e.u8(0);
            encode_inode_record(&mut e, rec);
            assert(e@ =~= seq![0u8] + wire::inode_bytes(rec@));
        },
        MetaOp::Link { parent, name, child } => {
            e.u8(1);
            e.u64(*parent);
            e.str(name.as_str());
            e.u64(*child);
            assert(e@ =~= seq![1u8] + wire::u64_bytes(*parent) + wire::str_bytes(name@)
                + wire::u64_bytes(*child));
        },
        MetaOp::Unlink { parent, name } => {
            e.u8(2);
            e.u64(*parent);
            e.str(name.as_str());
            assert(e@ =~= seq![2u8] + wire::u64_bytes(*parent) + wire::str_bytes(name@));
        },
        MetaOp::AppendChunk { inode, chunk } => {
            e.u8(3);
            e.u64(*inode);
            encode_chunk_pointer(&mut e, chunk);
            assert(e@ =~= seq![3u8] + wire::u64_bytes(*inode) + wire::chunk_bytes(chunk@));
        },
        MetaOp::BeginConvert { inode } => {
            e.u8(4);
            e.u64(*inode);
            assert(e@ =~= seq![4u8] + wire::u64_bytes(*inode));
        },
        MetaOp::CompleteConvert { inode, extents } => {
            e.u8(5);
            e.u64(*inode);
            encode_extents(&mut e, extents);
            assert(e@ =~= seq![5u8] + wire::u64_bytes(*inode) + wire::extents_bytes(
                proto::views(extents@),
            ));
        },
        MetaOp::SetRedundancyScheme { inode, scheme } => {
            e.u8(6);
            e.u64(*inode);
            encode_redundancy_scheme(&mut e, scheme);
            assert(e@ =~= seq![6u8] + wire::u64_bytes(*inode) + wire::scheme_bytes(scheme@));
        },
        MetaOp::PoolMapChange(pm) => {
            e.u8(7);
            encode_pool_map(&mut e, pm);
            proof {
                let pairs = choose|pairs: Seq<(u128, DiskEntry)>|
                    proto::lists(pairs, pm@.disks) && e@ == (Seq::<u8>::empty() + seq![7u8])
                        + #[trigger] wire::pool_bytes(pm@.epoch, pairs);
                assert(e@ =~= wire::op_bytes(op@, pairs));
            }
        },
        MetaOp::MetaGroupChange(group) => {
            e.u8(8);
            encode_meta_group(&mut e, group);
            assert(e@ =~= seq![8u8] + wire::group_bytes(*group));
        },
        MetaOp::UpdateExtents { inode, extents } => {
            e.u8(9);
            e.u64(*inode);
            encode_extents(&mut e, extents);
            assert(e@ =~= seq![9u8] + wire::u64_bytes(*inode) + wire::extents_bytes(
                proto::views(extents@),
            ));
        },
    }
    e.into_vec()
}

fn try_op(d: &mut Decoder) -> (r: Option<MetaOp>)
    ensures
        reads(wire::get_op(old(d).rest()), r, final(d).rest()),
{
    match d.try_u8()? {
        0 => Some(MetaOp::CreateInode(try_inode_record(d)?)),
        1 => {
            let parent: u64 = d.try_u64()?;
            let name: String = d.try_str()?;
            let child: u64 = d.try_u64()?;
            Some(MetaOp::Link { parent, name, child })
        },
        2 => {
            let parent: u64 = d.try_u64()?;
            let name: String = d.try_str()?;
            Some(MetaOp::Unlink { parent, name })
        },
        3 => {
            let inode: u64 = d.try_u64()?;
            let chunk = try_chunk_pointer(d)?;
            Some(MetaOp::AppendChunk { inode, chunk })
        },
        4 => {
            let inode: u64 = d.try_u64()?;
            Some(MetaOp::BeginConvert { inode })
        },
        5 => {
            let inode: u64 = d.try_u64()?;
            let extents = try_extents(d)?;
            Some(MetaOp::CompleteConvert { inode, extents })
        },
        6 => {
            let inode: u64 = d.try_u64()?;
            let scheme = try_redundancy_scheme(d)?;
            Some(MetaOp::SetRedundancyScheme { inode, scheme })
        },
        7 => Some(MetaOp::PoolMapChange(try_pool_map(d)?)),
        8 => Some(MetaOp::MetaGroupChange(try_meta_group(d)?)),
        9 => {
            let inode: u64 = d.try_u64()?;
            let extents = try_extents(d)?;
            Some(MetaOp::UpdateExtents { inode, extents })
        },
        _ => None,
    }
}

/// The operation that `bytes` starts with; `None` where there is none.
pub fn try_decode_op(bytes: &[u8]) -> (r: Option<MetaOp>)
    ensures
        match wire::get_op(bytes@) {
            Some((v, _)) => r is Some && r->Some_0@ == v,
            None => r is None,
        },
{
    let mut d = Decoder::new(bytes);
    try_op(&mut d)
}

/// The operation that `bytes` starts with.
pub fn decode_op(bytes: &[u8]) -> (op: MetaOp)
    requires
        wire::get_op(bytes@) is Some,
    ensures
        wire::get_op(bytes@)->Some_0.0 == op@,
{
    try_decode_op(bytes).unwrap()
}

} // verus!
