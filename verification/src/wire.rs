//! The byte form of the metadata: for every type the bytes that stand for a
//! value, the value that a byte sequence starts with, and the proof that the
//! second undoes the first.
//!
//! Integers are little-endian; lists and strings are preceded by their length
//! in 32 bits; a variant is one tag byte.

use crate::bytes;
use crate::proto::{
    ChunkView, DiskClass, DiskEntry, DiskRoles, DiskState, ExtentView, InodeMode, InodeView,
    LocatorView, MetaGroup, OpView, PoolView, ReplicaSlot, SchemeView, Uuid,
};
use vstd::prelude::*;
use vstd::utf8::*;

verus! {

broadcast use crate::bytes::lemma_le_len;

// ---------------------------------------------------------------------
// Integers

/// The length of a list as it is written down: modulo `2^32`.
pub open spec fn len32(n: nat) -> u32 {
    (n % 0x1_0000_0000) as u32
}

pub open spec fn u32_bytes(v: u32) -> Seq<u8> {
    bytes::le(v as nat, 4)
}

pub open spec fn u64_bytes(v: u64) -> Seq<u8> {
    bytes::le(v as nat, 8)
}

pub open spec fn u128_bytes(v: u128) -> Seq<u8> {
    bytes::le(v as nat, 16)
}

pub open spec fn get_u8(b: Seq<u8>) -> Option<(u8, Seq<u8>)> {
    if b.len() < 1 {
        None
    } else {
        Some((b[0], b.skip(1)))
    }
}

pub open spec fn get_u32(b: Seq<u8>) -> Option<(u32, Seq<u8>)> {
    if b.len() < 4 {
        None
    } else {
        Some((bytes::le_value(b.take(4)) as u32, b.skip(4)))
    }
}

pub open spec fn get_u64(b: Seq<u8>) -> Option<(u64, Seq<u8>)> {
    if b.len() < 8 {
        None
    } else {
        Some((bytes::le_value(b.take(8)) as u64, b.skip(8)))
    }
}

pub open spec fn get_u128(b: Seq<u8>) -> Option<(u128, Seq<u8>)> {
    if b.len() < 16 {
        None
    } else {
        Some((bytes::le_value(b.take(16)) as u128, b.skip(16)))
    }
}

pub open spec fn get_bytes(b: Seq<u8>) -> Option<(Seq<u8>, Seq<u8>)> {
    match get_u32(b) {
        Some((n, rest)) => if rest.len() < n {
            None
        } else {
            Some((rest.take(n as int), rest.skip(n as int)))
        },
        None => None,
    }
}

/// A string is its UTF-8 bytes behind their number.
pub open spec fn str_bytes(s: Seq<char>) -> Seq<u8> {
    u32_bytes(len32(encode_utf8(s).len())) + encode_utf8(s)
}

pub open spec fn get_str(b: Seq<u8>) -> Option<(Seq<char>, Seq<u8>)> {
    match get_bytes(b) {
        Some((raw, rest)) => if valid_utf8(raw) {
            Some((decode_utf8(raw), rest))
        } else {
            None
        },
        None => None,
    }
}

pub broadcast proof fn lemma_add_assoc(a: Seq<u8>, b: Seq<u8>, c: Seq<u8>)
    ensures
        #[trigger] ((a + b) + c) == a + (b + c),
{
    assert(((a + b) + c) =~= a + (b + c));
}

pub broadcast proof fn lemma_get_u8(v: u8, rest: Seq<u8>)
    ensures
        #[trigger] get_u8(seq![v] + rest) == Some((v, rest)),
{
    assert((seq![v] + rest).skip(1) =~= rest);
}

pub broadcast proof fn lemma_get_u32(v: u32, rest: Seq<u8>)
    ensures
        #[trigger] get_u32(u32_bytes(v) + rest) == Some((v, rest)),
{
    let b = u32_bytes(v) + rest;
    bytes::lemma_pow256_values();
    bytes::lemma_le_round_trip(v as nat, 4);
    assert(b.take(4) =~= u32_bytes(v));
    assert(b.skip(4) =~= rest);
}

pub broadcast proof fn lemma_get_u64(v: u64, rest: Seq<u8>)
    ensures
        #[trigger] get_u64(u64_bytes(v) + rest) == Some((v, rest)),
{
    let b = u64_bytes(v) + rest;
    bytes::lemma_pow256_values();
    bytes::lemma_le_round_trip(v as nat, 8);
    assert(b.take(8) =~= u64_bytes(v));
    assert(b.skip(8) =~= rest);
}

pub broadcast proof fn lemma_get_u128(v: u128, rest: Seq<u8>)
    ensures
        #[trigger] get_u128(u128_bytes(v) + rest) == Some((v, rest)),
{
    let b = u128_bytes(v) + rest;
    bytes::lemma_pow256_values();
    bytes::lemma_le_round_trip(v as nat, 16);
    assert(b.take(16) =~= u128_bytes(v));
    assert(b.skip(16) =~= rest);
}

pub broadcast group group_integers {
    lemma_add_assoc,
    lemma_get_u8,
    lemma_get_u32,
    lemma_get_u64,
    lemma_get_u128,
}

/// A string is read back, with what follows it, where its length fits in 32
/// bits.
pub broadcast proof fn str_round_trip(s: Seq<char>, rest: Seq<u8>)
    requires
        encode_utf8(s).len() <= u32::MAX,
    ensures
        #[trigger] get_str(str_bytes(s) + rest) == Some((s, rest)),
{
    broadcast use group_integers;
    broadcast use encode_utf8_valid_utf8, encode_utf8_decode_utf8;

    let raw = encode_utf8(s);
    assert(str_bytes(s) + rest == u32_bytes(len32(raw.len())) + (raw + rest));
    assert((raw + rest).take(raw.len() as int) =~= raw);
    assert((raw + rest).skip(raw.len() as int) =~= rest);
}

// ---------------------------------------------------------------------
// Lists

/// The bytes of the elements, one after the other.
pub open spec fn list_bytes<T>(xs: Seq<T>, put: spec_fn(T) -> Seq<u8>) -> Seq<u8>
    decreases xs.len(),
{
    if xs.len() == 0 {
        Seq::empty()
    } else {
        list_bytes(xs.drop_last(), put) + put(xs.last())
    }
}

/// The first `n` elements that `b` holds.
pub open spec fn get_list<T>(
    b: Seq<u8>,
    n: nat,
    get: spec_fn(Seq<u8>) -> Option<(T, Seq<u8>)>,
) -> Option<(Seq<T>, Seq<u8>)>
    decreases n,
{
    if n == 0 {
        Some((Seq::empty(), b))
    } else {
        match get_list(b, (n - 1) as nat, get) {
            Some((xs, rest)) => match get(rest) {
                Some((x, rest)) => Some((xs.push(x), rest)),
                None => None,
            },
            None => None,
        }
    }
}

/// A list behind its length.
pub open spec fn counted_bytes<T>(xs: Seq<T>, put: spec_fn(T) -> Seq<u8>) -> Seq<u8> {
    u32_bytes(len32(xs.len())) + list_bytes(xs, put)
}

pub open spec fn get_counted<T>(
    b: Seq<u8>,
    get: spec_fn(Seq<u8>) -> Option<(T, Seq<u8>)>,
) -> Option<(Seq<T>, Seq<u8>)> {
    match get_u32(b) {
        Some((n, rest)) => get_list(rest, n as nat, get),
        None => None,
    }
}

/// What cannot be read for `m` elements cannot be read for more.
pub proof fn lemma_get_list_stops<T>(
    b: Seq<u8>,
    m: nat,
    n: nat,
    get: spec_fn(Seq<u8>) -> Option<(T, Seq<u8>)>,
)
    requires
        m <= n,
        get_list(b, m, get) is None,
    ensures
        get_list(b, n, get) is None,
    decreases n,
{
    if m < n {
        lemma_get_list_stops(b, m, (n - 1) as nat, get);
    }
}

pub proof fn list_round_trip<T>(
    xs: Seq<T>,
    put: spec_fn(T) -> Seq<u8>,
    get: spec_fn(Seq<u8>) -> Option<(T, Seq<u8>)>,
    rest: Seq<u8>,
)
    requires
        forall|i: int, r: Seq<u8>|
            0 <= i < xs.len() ==> #[trigger] get(put(xs[i]) + r) == Some((xs[i], r)),
    ensures
        get_list(list_bytes(xs, put) + rest, xs.len(), get) == Some((xs, rest)),
    decreases xs.len(),
{
    broadcast use lemma_add_assoc;

    if xs.len() == 0 {
        assert(list_bytes(xs, put) + rest =~= rest);
        assert(xs =~= Seq::empty());
    } else {
        let init = xs.drop_last();
        let last = xs.last();
        assert forall|i: int, r: Seq<u8>| 0 <= i < init.len() implies #[trigger] get(
            put(init[i]) + r,
        ) == Some((init[i], r)) by {
            assert(init[i] == xs[i]);
            assert(get(put(xs[i]) + r) == Some((xs[i], r)));
        }
        list_round_trip(init, put, get, put(last) + rest);
        assert(list_bytes(xs, put) + rest == list_bytes(init, put) + (put(last) + rest));
        assert(get(put(xs[xs.len() - 1]) + rest) == Some((last, rest)));
        assert(init.push(last) =~= xs);
    }
}

pub proof fn counted_round_trip<T>(
    xs: Seq<T>,
    put: spec_fn(T) -> Seq<u8>,
    get: spec_fn(Seq<u8>) -> Option<(T, Seq<u8>)>,
    rest: Seq<u8>,
)
    requires
        xs.len() <= u32::MAX,
        forall|i: int, r: Seq<u8>|
            0 <= i < xs.len() ==> #[trigger] get(put(xs[i]) + r) == Some((xs[i], r)),
    ensures
        get_counted(counted_bytes(xs, put) + rest, get) == Some((xs, rest)),
{
    broadcast use group_integers;

    list_round_trip(xs, put, get, rest);
    assert(counted_bytes(xs, put) + rest == u32_bytes(len32(xs.len())) + (list_bytes(xs, put)
        + rest));
}

// ---------------------------------------------------------------------
// Redundancy schemes

pub open spec fn class_bytes(c: DiskClass) -> Seq<u8> {
    seq![
        match c {
            DiskClass::Hdd => 0u8,
            DiskClass::Ssd => 1u8,
            DiskClass::Nvme => 2u8,
        },
    ]
}

pub open spec fn get_class(b: Seq<u8>) -> Option<(DiskClass, Seq<u8>)> {
    match get_u8(b) {
        Some((tag, rest)) => if tag == 0 {
            Some((DiskClass::Hdd, rest))
        } else if tag == 1 {
            Some((DiskClass::Ssd, rest))
        } else if tag == 2 {
            Some((DiskClass::Nvme, rest))
        } else {
            None
        },
        None => None,
    }
}

pub broadcast proof fn class_round_trip(c: DiskClass, rest: Seq<u8>)
    ensures
        #[trigger] get_class(class_bytes(c) + rest) == Some((c, rest)),
{
    broadcast use group_integers;

}

pub open spec fn slot_bytes(slot: ReplicaSlot) -> Seq<u8> {
    match slot {
        ReplicaSlot::AnyOfClass(None) => seq![0u8],
        ReplicaSlot::AnyOfClass(Some(c)) => seq![1u8] + class_bytes(c),
        ReplicaSlot::Pinned(id) => seq![2u8] + u128_bytes(id.0),
    }
}

pub open spec fn get_slot(b: Seq<u8>) -> Option<(ReplicaSlot, Seq<u8>)> {
    match get_u8(b) {
        Some((tag, rest)) => if tag == 0 {
            Some((ReplicaSlot::AnyOfClass(None), rest))
        } else if tag == 1 {
            match get_class(rest) {
                Some((c, rest)) => Some((ReplicaSlot::AnyOfClass(Some(c)), rest)),
                None => None,
            }
        } else if tag == 2 {
            match get_u128(rest) {
                Some((id, rest)) => Some((ReplicaSlot::Pinned(Uuid(id)), rest)),
                None => None,
            }
        } else {
            None
        },
        None => None,
    }
}

pub broadcast proof fn slot_round_trip(slot: ReplicaSlot, rest: Seq<u8>)
    ensures
        #[trigger] get_slot(slot_bytes(slot) + rest) == Some((slot, rest)),
{
    broadcast use group_integers;
    broadcast use class_round_trip;

}

pub open spec fn put_slot() -> spec_fn(ReplicaSlot) -> Seq<u8> {
    |slot: ReplicaSlot| slot_bytes(slot)
}

pub open spec fn slot_getter() -> spec_fn(Seq<u8>) -> Option<(ReplicaSlot, Seq<u8>)> {
    |b: Seq<u8>| get_slot(b)
}

pub open spec fn scheme_bytes(s: SchemeView) -> Seq<u8> {
    match s {
        SchemeView::Replicated(slots) => seq![0u8] + counted_bytes(slots, put_slot()),
        SchemeView::ErasureCoded { data_shards, parity_shards } => seq![1u8] + seq![data_shards]
            + seq![parity_shards],
    }
}

pub open spec fn get_scheme(b: Seq<u8>) -> Option<(SchemeView, Seq<u8>)> {
    match get_u8(b) {
        Some((tag, rest)) => if tag == 0 {
            match get_counted(rest, slot_getter()) {
                Some((slots, rest)) => Some((SchemeView::Replicated(slots), rest)),
                None => None,
            }
        } else if tag == 1 {
            match get_u8(rest) {
                Some((data_shards, rest)) => match get_u8(rest) {
                    Some((parity_shards, rest)) => Some(
                        (SchemeView::ErasureCoded { data_shards, parity_shards }, rest),
                    ),
                    None => None,
                },
                None => None,
            }
        } else {
            None
        },
        None => None,
    }
}

/// The scheme's list has a length that fits in 32 bits.
pub open spec fn scheme_fits(s: SchemeView) -> bool {
    s matches SchemeView::Replicated(slots) ==> slots.len() <= u32::MAX
}

pub broadcast proof fn scheme_round_trip(s: SchemeView, rest: Seq<u8>)
    requires
        scheme_fits(s),
    ensures
        #[trigger] get_scheme(scheme_bytes(s) + rest) == Some((s, rest)),
{
    broadcast use group_integers;
    broadcast use slot_round_trip;

    if let SchemeView::Replicated(slots) = s {
        counted_round_trip(slots, put_slot(), slot_getter(), rest);
    }
}

// ---------------------------------------------------------------------
// Chunks and extents

pub open spec fn replica_bytes(r: (Uuid, u64)) -> Seq<u8> {
    u128_bytes(r.0.0) + u64_bytes(r.1)
}

pub open spec fn get_replica(b: Seq<u8>) -> Option<((Uuid, u64), Seq<u8>)> {
    match get_u128(b) {
        Some((id, rest)) => match get_u64(rest) {
            Some((offset, rest)) => Some(((Uuid(id), offset), rest)),
            None => None,
        },
        None => None,
    }
}

pub open spec fn put_replica() -> spec_fn((Uuid, u64)) -> Seq<u8> {
    |r: (Uuid, u64)| replica_bytes(r)
}

pub open spec fn replica_getter() -> spec_fn(Seq<u8>) -> Option<((Uuid, u64), Seq<u8>)> {
    |b: Seq<u8>| get_replica(b)
}

pub open spec fn replicas_bytes(rs: Seq<(Uuid, u64)>) -> Seq<u8> {
    counted_bytes(rs, put_replica())
}

pub open spec fn get_replicas(b: Seq<u8>) -> Option<(Seq<(Uuid, u64)>, Seq<u8>)> {
    get_counted(b, replica_getter())
}

pub broadcast proof fn replicas_round_trip(rs: Seq<(Uuid, u64)>, rest: Seq<u8>)
    requires
        rs.len() <= u32::MAX,
    ensures
        #[trigger] get_replicas(replicas_bytes(rs) + rest) == Some((rs, rest)),
{
    broadcast use group_integers;

    counted_round_trip(rs, put_replica(), replica_getter(), rest);
}

pub open spec fn chunk_bytes(c: ChunkView) -> Seq<u8> {
    u64_bytes(c.chunk_seq) + replicas_bytes(c.replicas) + u32_bytes(c.len) + u32_bytes(c.checksum)
}

pub open spec fn get_chunk(b: Seq<u8>) -> Option<(ChunkView, Seq<u8>)> {
    match get_u64(b) {
        Some((chunk_seq, rest)) => match get_replicas(rest) {
            Some((replicas, rest)) => match get_u32(rest) {
                Some((len, rest)) => match get_u32(rest) {
                    Some((checksum, rest)) => Some(
                        (ChunkView { chunk_seq, replicas, len, checksum }, rest),
                    ),
                    None => None,
                },
                None => None,
            },
            None => None,
        },
        None => None,
    }
}

pub broadcast proof fn chunk_round_trip(c: ChunkView, rest: Seq<u8>)
    requires
        c.replicas.len() <= u32::MAX,
    ensures
        #[trigger] get_chunk(chunk_bytes(c) + rest) == Some((c, rest)),
{
    broadcast use group_integers;
    broadcast use replicas_round_trip;

}

pub open spec fn put_chunk() -> spec_fn(ChunkView) -> Seq<u8> {
    |c: ChunkView| chunk_bytes(c)
}

pub open spec fn chunk_getter() -> spec_fn(Seq<u8>) -> Option<(ChunkView, Seq<u8>)> {
    |b: Seq<u8>| get_chunk(b)
}

pub open spec fn extent_bytes(x: ExtentView) -> Seq<u8> {
    u64_bytes(x.file_offset) + u32_bytes(x.len) + replicas_bytes(x.replicas) + u32_bytes(x.checksum)
}

pub open spec fn get_extent(b: Seq<u8>) -> Option<(ExtentView, Seq<u8>)> {
    match get_u64(b) {
        Some((file_offset, rest)) => match get_u32(rest) {
            Some((len, rest)) => match get_replicas(rest) {
                Some((replicas, rest)) => match get_u32(rest) {
                    Some((checksum, rest)) => Some(
                        (ExtentView { file_offset, len, replicas, checksum }, rest),
                    ),
                    None => None,
                },
                None => None,
            },
            None => None,
        },
        None => None,
    }
}

/// An extent is read back from its bytes.
pub broadcast proof fn extent_round_trip(x: ExtentView, rest: Seq<u8>)
    requires
        x.replicas.len() <= u32::MAX,
    ensures
        #[trigger] get_extent(extent_bytes(x) + rest) == Some((x, rest)),
{
    broadcast use group_integers;
    broadcast use replicas_round_trip;

}

pub open spec fn put_extent() -> spec_fn(ExtentView) -> Seq<u8> {
    |x: ExtentView| extent_bytes(x)
}

pub open spec fn extent_getter() -> spec_fn(Seq<u8>) -> Option<(ExtentView, Seq<u8>)> {
    |b: Seq<u8>| get_extent(b)
}

pub open spec fn extents_bytes(xs: Seq<ExtentView>) -> Seq<u8> {
    counted_bytes(xs, put_extent())
}

pub open spec fn get_extents(b: Seq<u8>) -> Option<(Seq<ExtentView>, Seq<u8>)> {
    get_counted(b, extent_getter())
}

pub open spec fn extents_fit(xs: Seq<ExtentView>) -> bool {
    &&& xs.len() <= u32::MAX
    &&& forall|i: int| 0 <= i < xs.len() ==> (#[trigger] xs[i]).replicas.len() <= u32::MAX
}

pub open spec fn chunks_fit(cs: Seq<ChunkView>) -> bool {
    &&& cs.len() <= u32::MAX
    &&& forall|i: int| 0 <= i < cs.len() ==> (#[trigger] cs[i]).replicas.len() <= u32::MAX
}

pub broadcast proof fn extents_round_trip(xs: Seq<ExtentView>, rest: Seq<u8>)
    requires
        extents_fit(xs),
    ensures
        #[trigger] get_extents(extents_bytes(xs) + rest) == Some((xs, rest)),
{
    assert forall|i: int, r: Seq<u8>| 0 <= i < xs.len() implies #[trigger] extent_getter()(
        put_extent()(xs[i]) + r,
    ) == Some((xs[i], r)) by {
        extent_round_trip(xs[i], r);
    }
    counted_round_trip(xs, put_extent(), extent_getter(), rest);
}

// ---------------------------------------------------------------------
// Inodes

pub open spec fn mode_bytes(m: InodeMode) -> Seq<u8> {
    seq![
        match m {
            InodeMode::AppendOnly => 0u8,
            InodeMode::Converting => 1u8,
            InodeMode::Writable => 2u8,
        },
    ]
}

pub open spec fn get_mode(b: Seq<u8>) -> Option<(InodeMode, Seq<u8>)> {
    match get_u8(b) {
        Some((tag, rest)) => if tag == 0 {
            Some((InodeMode::AppendOnly, rest))
        } else if tag == 1 {
            Some((InodeMode::Converting, rest))
        } else if tag == 2 {
            Some((InodeMode::Writable, rest))
        } else {
            None
        },
        None => None,
    }
}

pub broadcast proof fn mode_round_trip(m: InodeMode, rest: Seq<u8>)
    ensures
        #[trigger] get_mode(mode_bytes(m) + rest) == Some((m, rest)),
{
    broadcast use group_integers;

}

pub open spec fn locator_bytes(l: LocatorView) -> Seq<u8> {
    match l {
        LocatorView::ChunkLog(cs) => seq![0u8] + counted_bytes(cs, put_chunk()),
        LocatorView::Extents(xs) => seq![1u8] + extents_bytes(xs),
    }
}

pub open spec fn get_locator(b: Seq<u8>) -> Option<(LocatorView, Seq<u8>)> {
    match get_u8(b) {
        Some((tag, rest)) => if tag == 0 {
            match get_counted(rest, chunk_getter()) {
                Some((cs, rest)) => Some((LocatorView::ChunkLog(cs), rest)),
                None => None,
            }
        } else if tag == 1 {
            match get_extents(rest) {
                Some((xs, rest)) => Some((LocatorView::Extents(xs), rest)),
                None => None,
            }
        } else {
            None
        },
        None => None,
    }
}

pub open spec fn locator_fits(l: LocatorView) -> bool {
    match l {
        LocatorView::ChunkLog(cs) => chunks_fit(cs),
        LocatorView::Extents(xs) => extents_fit(xs),
    }
}

pub broadcast proof fn locator_round_trip(l: LocatorView, rest: Seq<u8>)
    requires
        locator_fits(l),
    ensures
        #[trigger] get_locator(locator_bytes(l) + rest) == Some((l, rest)),
{
    broadcast use group_integers;
    broadcast use extents_round_trip;

    if let LocatorView::ChunkLog(cs) = l {
        assert forall|i: int, r: Seq<u8>| 0 <= i < cs.len() implies #[trigger] chunk_getter()(
            put_chunk()(cs[i]) + r,
        ) == Some((cs[i], r)) by {
            chunk_round_trip(cs[i], r);
        }
        counted_round_trip(cs, put_chunk(), chunk_getter(), rest);
    }
}

pub open spec fn inode_bytes(r: InodeView) -> Seq<u8> {
    u64_bytes(r.inode) + mode_bytes(r.mode) + u64_bytes(r.size) + scheme_bytes(r.redundancy)
        + locator_bytes(r.data) + u32_bytes(r.uid) + u32_bytes(r.gid) + u32_bytes(r.unix_mode)
        + u64_bytes(r.mtime_unix)
}

pub open spec fn get_inode_tail(
    inode: u64,
    mode: InodeMode,
    size: u64,
    redundancy: SchemeView,
    data: LocatorView,
    b: Seq<u8>,
) -> Option<(InodeView, Seq<u8>)> {
    match get_u32(b) {
        Some((uid, rest)) => match get_u32(rest) {
            Some((gid, rest)) => match get_u32(rest) {
                Some((unix_mode, rest)) => match get_u64(rest) {
                    Some((mtime_unix, rest)) => Some(
                        (
                            InodeView {
                                inode,
                                mode,
                                size,
                                redundancy,
                                data,
                                uid,
                                gid,
                                unix_mode,
                                mtime_unix,
                            },
                            rest,
                        ),
                    ),
                    None => None,
                },
                None => None,
            },
            None => None,
        },
        None => None,
    }
}

pub open spec fn get_inode(b: Seq<u8>) -> Option<(InodeView, Seq<u8>)> {
    match get_u64(b) {
        Some((inode, rest)) => match get_mode(rest) {
            Some((mode, rest)) => match get_u64(rest) {
                Some((size, rest)) => match get_scheme(rest) {
                    Some((redundancy, rest)) => match get_locator(rest) {
                        Some((data, rest)) => get_inode_tail(
                            inode,
                            mode,
                            size,
                            redundancy,
                            data,
                            rest,
                        ),
                        None => None,
                    },
                    None => None,
                },
                None => None,
            },
            None => None,
        },
        None => None,
    }
}

/// Every list of the record has a length that fits in 32 bits.
pub open spec fn inode_fits(r: InodeView) -> bool {
    scheme_fits(r.redundancy) && locator_fits(r.data)
}

/// An inode record is read back from its bytes.
pub broadcast proof fn inode_round_trip(r: InodeView, rest: Seq<u8>)
    requires
        inode_fits(r),
    ensures
        #[trigger] get_inode(inode_bytes(r) + rest) == Some((r, rest)),
{
    let p1 = u64_bytes(r.inode);
    let p2 = p1 + mode_bytes(r.mode);
    let p3 = p2 + u64_bytes(r.size);
    let p4 = p3 + scheme_bytes(r.redundancy);
    let p5 = p4 + locator_bytes(r.data);
    let p6 = p5 + u32_bytes(r.uid);
    let p7 = p6 + u32_bytes(r.gid);
    let p8 = p7 + u32_bytes(r.unix_mode);
    let t8 = u64_bytes(r.mtime_unix) + rest;
    let t7 = u32_bytes(r.unix_mode) + t8;
    let t6 = u32_bytes(r.gid) + t7;
    let t5 = u32_bytes(r.uid) + t6;
    let t4 = locator_bytes(r.data) + t5;
    let t3 = scheme_bytes(r.redundancy) + t4;
    let t2 = u64_bytes(r.size) + t3;
    let t1 = mode_bytes(r.mode) + t2;
    lemma_add_assoc(p8, u64_bytes(r.mtime_unix), rest);
    lemma_add_assoc(p7, u32_bytes(r.unix_mode), t8);
    lemma_add_assoc(p6, u32_bytes(r.gid), t7);
    lemma_add_assoc(p5, u32_bytes(r.uid), t6);
    lemma_add_assoc(p4, locator_bytes(r.data), t5);
    lemma_add_assoc(p3, scheme_bytes(r.redundancy), t4);
    lemma_add_assoc(p2, u64_bytes(r.size), t3);
    lemma_add_assoc(p1, mode_bytes(r.mode), t2);
    lemma_get_u64(r.inode, t1);
    mode_round_trip(r.mode, t2);
    lemma_get_u64(r.size, t3);
    scheme_round_trip(r.redundancy, t4);
    locator_round_trip(r.data, t5);
    lemma_get_u32(r.uid, t6);
    lemma_get_u32(r.gid, t7);
    lemma_get_u32(r.unix_mode, t8);
    lemma_get_u64(r.mtime_unix, rest);
}

// ---------------------------------------------------------------------
// The pool

pub open spec fn roles_bytes(r: DiskRoles) -> Seq<u8> {
    seq![((if r.data { 1int } else { 0int }) + (if r.metadata { 2int } else { 0int })) as u8]
}

pub open spec fn get_roles(b: Seq<u8>) -> Option<(DiskRoles, Seq<u8>)> {
    match get_u8(b) {
        Some((n, rest)) => Some(
            (DiskRoles { data: n % 2 == 1, metadata: (n / 2) % 2 == 1 }, rest),
        ),
        None => None,
    }
}

pub open spec fn state_bytes(s: DiskState) -> Seq<u8> {
    seq![
        match s {
            DiskState::Active => 0u8,
            DiskState::Draining => 1u8,
            DiskState::Dead => 2u8,
        },
    ]
}

pub open spec fn get_state(b: Seq<u8>) -> Option<(DiskState, Seq<u8>)> {
    match get_u8(b) {
        Some((tag, rest)) => if tag == 0 {
            Some((DiskState::Active, rest))
        } else if tag == 1 {
            Some((DiskState::Draining, rest))
        } else if tag == 2 {
            Some((DiskState::Dead, rest))
        } else {
            None
        },
        None => None,
    }
}

pub open spec fn entry_bytes(p: (u128, DiskEntry)) -> Seq<u8> {
    u128_bytes(p.0) + roles_bytes(p.1.roles) + state_bytes(p.1.state) + class_bytes(p.1.class)
        + u64_bytes(p.1.weight_bits) + u64_bytes(p.1.used_bytes) + u64_bytes(p.1.capacity_bytes)
}

pub open spec fn get_entry_tail(
    id: u128,
    roles: DiskRoles,
    state: DiskState,
    class: DiskClass,
    b: Seq<u8>,
) -> Option<((u128, DiskEntry), Seq<u8>)> {
    match get_u64(b) {
        Some((weight_bits, rest)) => match get_u64(rest) {
            Some((used_bytes, rest)) => match get_u64(rest) {
                Some((capacity_bytes, rest)) => Some(
                    (
                        (
                            id,
                            DiskEntry {
                                roles,
                                state,
                                class,
                                weight_bits,
                                used_bytes,
                                capacity_bytes,
                            },
                        ),
                        rest,
                    ),
                ),
                None => None,
            },
            None => None,
        },
        None => None,
    }
}

pub open spec fn get_entry(b: Seq<u8>) -> Option<((u128, DiskEntry), Seq<u8>)> {
    match get_u128(b) {
        Some((id, rest)) => match get_roles(rest) {
            Some((roles, rest)) => match get_state(rest) {
                Some((state, rest)) => match get_class(rest) {
                    Some((class, rest)) => get_entry_tail(id, roles, state, class, rest),
                    None => None,
                },
                None => None,
            },
            None => None,
        },
        None => None,
    }
}

pub broadcast proof fn entry_round_trip(p: (u128, DiskEntry), rest: Seq<u8>)
    ensures
        #[trigger] get_entry(entry_bytes(p) + rest) == Some((p, rest)),
{
    let e = p.1;
    let p1 = u128_bytes(p.0);
    let p2 = p1 + roles_bytes(e.roles);
    let p3 = p2 + state_bytes(e.state);
    let p4 = p3 + class_bytes(e.class);
    let p5 = p4 + u64_bytes(e.weight_bits);
    let p6 = p5 + u64_bytes(e.used_bytes);
    let t6 = u64_bytes(e.capacity_bytes) + rest;
    let t5 = u64_bytes(e.used_bytes) + t6;
    let t4 = u64_bytes(e.weight_bits) + t5;
    let t3 = class_bytes(e.class) + t4;
    let t2 = state_bytes(e.state) + t3;
    let t1 = roles_bytes(e.roles) + t2;
    lemma_add_assoc(p6, u64_bytes(e.capacity_bytes), rest);
    lemma_add_assoc(p5, u64_bytes(e.used_bytes), t6);
    lemma_add_assoc(p4, u64_bytes(e.weight_bits), t5);
    lemma_add_assoc(p3, class_bytes(e.class), t4);
    lemma_add_assoc(p2, state_bytes(e.state), t3);
    lemma_add_assoc(p1, roles_bytes(e.roles), t2);
    lemma_get_u128(p.0, t1);
    lemma_get_u8(roles_bytes(e.roles)[0], t2);
    assert(get_roles(t1) == Some((e.roles, t2)));
    lemma_get_u8(state_bytes(e.state)[0], t3);
    assert(get_state(t2) == Some((e.state, t3)));
    class_round_trip(e.class, t4);
    lemma_get_u64(e.weight_bits, t5);
    lemma_get_u64(e.used_bytes, t6);
    lemma_get_u64(e.capacity_bytes, rest);
}

pub open spec fn put_entry() -> spec_fn((u128, DiskEntry)) -> Seq<u8> {
    |p: (u128, DiskEntry)| entry_bytes(p)
}

pub open spec fn entry_getter() -> spec_fn(Seq<u8>) -> Option<((u128, DiskEntry), Seq<u8>)> {
    |b: Seq<u8>| get_entry(b)
}

/// The pool map with its disks in the order of `pairs`.
pub open spec fn pool_bytes(epoch: u64, pairs: Seq<(u128, DiskEntry)>) -> Seq<u8> {
    u64_bytes(epoch) + counted_bytes(pairs, put_entry())
}

/// The map of the pairs; of two with one key the later stands.
pub open spec fn map_of(pairs: Seq<(u128, DiskEntry)>) -> Map<u128, DiskEntry>
    decreases pairs.len(),
{
    if pairs.len() == 0 {
        Map::empty()
    } else {
        map_of(pairs.drop_last()).insert(pairs.last().0, pairs.last().1)
    }
}

pub open spec fn get_pool(b: Seq<u8>) -> Option<(PoolView, Seq<u8>)> {
    match get_u64(b) {
        Some((epoch, rest)) => match get_counted(rest, entry_getter()) {
            Some((pairs, rest)) => Some((PoolView { epoch, disks: map_of(pairs) }, rest)),
            None => None,
        },
        None => None,
    }
}

proof fn lemma_map_of(pairs: Seq<(u128, DiskEntry)>)
    ensures
        forall|k: u128| #[trigger]
            map_of(pairs).dom().contains(k) <==> exists|i: int|
                0 <= i < pairs.len() && (#[trigger] pairs[i]).0 == k,
        forall|i: int|
            (0 <= i < pairs.len() && forall|j: int|
                0 <= j < pairs.len() && j != i ==> (#[trigger] pairs[j]).0 != pairs[i].0)
                ==> map_of(pairs)[(#[trigger] pairs[i]).0] == pairs[i].1,
    decreases pairs.len(),
{
    if pairs.len() > 0 {
        let init = pairs.drop_last();
        lemma_map_of(init);
        assert forall|k: u128| #[trigger] map_of(pairs).dom().contains(k) <==> exists|i: int|
            0 <= i < pairs.len() && (#[trigger] pairs[i]).0 == k by {
            if map_of(init).dom().contains(k) {
                let i = choose|i: int| 0 <= i < init.len() && (#[trigger] init[i]).0 == k;
                assert(pairs[i].0 == k);
            }
            if exists|i: int| 0 <= i < pairs.len() && (#[trigger] pairs[i]).0 == k {
                let i = choose|i: int| 0 <= i < pairs.len() && (#[trigger] pairs[i]).0 == k;
                if i < init.len() {
                    assert(init[i].0 == k);
                }
            }
            assert(pairs.last() == pairs[pairs.len() - 1]);
        }
        assert forall|i: int|
            (0 <= i < pairs.len() && forall|j: int|
                0 <= j < pairs.len() && j != i ==> (#[trigger] pairs[j]).0
                    != pairs[i].0) implies map_of(pairs)[(#[trigger] pairs[i]).0] == pairs[i].1 by {
            if i < init.len() {
                assert(init[i] == pairs[i]);
                assert forall|j: int| 0 <= j < init.len() && j != i implies (#[trigger] init[j]).0
                    != init[i].0 by {
                    assert(init[j] == pairs[j]);
                }
                assert(pairs[pairs.len() - 1].0 != pairs[i].0);
            }
        }
    }
}

/// A listing of a map gives the map back.
pub proof fn lemma_lists_map_of(pairs: Seq<(u128, DiskEntry)>, m: Map<u128, DiskEntry>)
    requires
        crate::proto::lists(pairs, m),
    ensures
        map_of(pairs) == m,
{
    lemma_map_of(pairs);
    assert forall|k: u128| map_of(pairs).dom().contains(k) == #[trigger] m.dom().contains(k) by {
        if m.dom().contains(k) {
            let i = pairs.index_of((k, m[k]));
            assert(pairs[i].0 == k);
        }
        if map_of(pairs).dom().contains(k) {
            let i = choose|i: int| 0 <= i < pairs.len() && (#[trigger] pairs[i]).0 == k;
            assert(m.dom().contains(pairs[i].0));
        }
    }
    assert forall|k: u128| #[trigger] m.dom().contains(k) implies map_of(pairs)[k] == m[k] by {
        let i = pairs.index_of((k, m[k]));
        assert(pairs[i].0 == k);
        assert forall|j: int| 0 <= j < pairs.len() && j != i implies (#[trigger] pairs[j]).0
            != pairs[i].0 by {
            if j < i {
                assert(pairs[j].0 != pairs[i].0);
            } else {
                assert(pairs[i].0 != pairs[j].0);
            }
        }
    }
    assert(map_of(pairs) =~= m);
}

/// A pool map is read back from its bytes, in whatever order its disks were
/// written.
pub proof fn pool_round_trip(
    map: PoolView,
    pairs: Seq<(u128, DiskEntry)>,
    rest: Seq<u8>,
)
    requires
        crate::proto::lists(pairs, map.disks),
        pairs.len() <= u32::MAX,
    ensures
        get_pool(pool_bytes(map.epoch, pairs) + rest) == Some((map, rest)),
{
    broadcast use group_integers;
    broadcast use entry_round_trip;

    counted_round_trip(pairs, put_entry(), entry_getter(), rest);
    lemma_lists_map_of(pairs, map.disks);
}

pub open spec fn group_bytes(g: MetaGroup) -> Seq<u8> {
    u128_bytes(g.primary.0) + (match g.backup {
        Some(backup) => seq![1u8] + u128_bytes(backup.0),
        None => seq![0u8],
    }) + u64_bytes(g.epoch)
}

pub open spec fn get_group(b: Seq<u8>) -> Option<(MetaGroup, Seq<u8>)> {
    match get_u128(b) {
        Some((primary, rest)) => match get_u8(rest) {
            Some((flag, rest)) => {
                let backup = if flag == 0 {
                    Some((None, rest))
                } else {
                    match get_u128(rest) {
                        Some((id, rest)) => Some((Some(Uuid(id)), rest)),
                        None => None,
                    }
                };
                match backup {
                    Some((backup, rest)) => match get_u64(rest) {
                        Some((epoch, rest)) => Some(
                            (MetaGroup { primary: Uuid(primary), backup, epoch }, rest),
                        ),
                        None => None,
                    },
                    None => None,
                }
            },
            None => None,
        },
        None => None,
    }
}

/// A metadata group is read back from its bytes.
pub broadcast proof fn group_round_trip(g: MetaGroup, rest: Seq<u8>)
    ensures
        #[trigger] get_group(group_bytes(g) + rest) == Some((g, rest)),
{
    broadcast use group_integers;

}

// ---------------------------------------------------------------------
// Operations

/// The bytes of an operation. Only a pool map leaves a choice: the order
/// `pairs` of its disks.
pub open spec fn op_bytes(op: OpView, pairs: Seq<(u128, DiskEntry)>) -> Seq<u8> {
    match op {
        OpView::CreateInode(rec) => seq![0u8] + inode_bytes(rec),
        OpView::Link { parent, name, child } => seq![1u8] + u64_bytes(parent) + str_bytes(name)
            + u64_bytes(child),
        OpView::Unlink { parent, name } => seq![2u8] + u64_bytes(parent) + str_bytes(name),
        OpView::AppendChunk { inode, chunk } => seq![3u8] + u64_bytes(inode) + chunk_bytes(chunk),
        OpView::BeginConvert { inode } => seq![4u8] + u64_bytes(inode),
        OpView::CompleteConvert { inode, extents } => seq![5u8] + u64_bytes(inode) + extents_bytes(
            extents,
        ),
        OpView::SetRedundancyScheme { inode, scheme } => seq![6u8] + u64_bytes(inode)
            + scheme_bytes(scheme),
        OpView::PoolMapChange(map) => seq![7u8] + pool_bytes(map.epoch, pairs),
        OpView::MetaGroupChange(group) => seq![8u8] + group_bytes(group),
        OpView::UpdateExtents { inode, extents } => seq![9u8] + u64_bytes(inode) + extents_bytes(
            extents,
        ),
    }
}

/// `b` is a byte form of `op`.
pub open spec fn encodes(op: OpView, b: Seq<u8>) -> bool {
    match op {
        OpView::PoolMapChange(map) => exists|pairs: Seq<(u128, DiskEntry)>|
            crate::proto::lists(pairs, map.disks) && b == #[trigger] op_bytes(op, pairs),
        _ => b == op_bytes(op, Seq::empty()),
    }
}

pub open spec fn get_named(b: Seq<u8>) -> Option<(u64, Seq<char>, Seq<u8>)> {
    match get_u64(b) {
        Some((parent, rest)) => match get_str(rest) {
            Some((name, rest)) => Some((parent, name, rest)),
            None => None,
        },
        None => None,
    }
}

pub open spec fn get_inode_extents(b: Seq<u8>) -> Option<(u64, Seq<ExtentView>, Seq<u8>)> {
    match get_u64(b) {
        Some((inode, rest)) => match get_extents(rest) {
            Some((extents, rest)) => Some((inode, extents, rest)),
            None => None,
        },
        None => None,
    }
}

/// The operation that `b` starts with.
pub open spec fn get_op(b: Seq<u8>) -> Option<(OpView, Seq<u8>)> {
    match get_u8(b) {
        Some((tag, rest)) => if tag == 0 {
            match get_inode(rest) {
                Some((rec, rest)) => Some((OpView::CreateInode(rec), rest)),
                None => None,
            }
        } else if tag == 1 {
            match get_named(rest) {
                Some((parent, name, rest)) => match get_u64(rest) {
                    Some((child, rest)) => Some((OpView::Link { parent, name, child }, rest)),
                    None => None,
                },
                None => None,
            }
        } else if tag == 2 {
            match get_named(rest) {
                Some((parent, name, rest)) => Some((OpView::Unlink { parent, name }, rest)),
                None => None,
            }
        } else if tag == 3 {
            match get_u64(rest) {
                Some((inode, rest)) => match get_chunk(rest) {
                    Some((chunk, rest)) => Some((OpView::AppendChunk { inode, chunk }, rest)),
                    None => None,
                },
                None => None,
            }
        } else if tag == 4 {
            match get_u64(rest) {
                Some((inode, rest)) => Some((OpView::BeginConvert { inode }, rest)),
                None => None,
            }
        } else if tag == 5 {
            match get_inode_extents(rest) {
                Some((inode, extents, rest)) => Some(
                    (OpView::CompleteConvert { inode, extents }, rest),
                ),
                None => None,
            }
        } else if tag == 6 {
            match get_u64(rest) {
                Some((inode, rest)) => match get_scheme(rest) {
                    Some((scheme, rest)) => Some(
                        (OpView::SetRedundancyScheme { inode, scheme }, rest),
                    ),
                    None => None,
                },
                None => None,
            }
        } else if tag == 7 {
            match get_pool(rest) {
                Some((map, rest)) => Some((OpView::PoolMapChange(map), rest)),
                None => None,
            }
        } else if tag == 8 {
            match get_group(rest) {
                Some((group, rest)) => Some((OpView::MetaGroupChange(group), rest)),
                None => None,
            }
        } else if tag == 9 {
            match get_inode_extents(rest) {
                Some((inode, extents, rest)) => Some(
                    (OpView::UpdateExtents { inode, extents }, rest),
                ),
                None => None,
            }
        } else {
            None
        },
        None => None,
    }
}

/// Every list and string of the operation has a length that fits in 32 bits.
pub open spec fn op_fits(op: OpView) -> bool {
    match op {
        OpView::CreateInode(rec) => inode_fits(rec),
        OpView::Link { name, .. } => encode_utf8(name).len() <= u32::MAX,
        OpView::Unlink { name, .. } => encode_utf8(name).len() <= u32::MAX,
        OpView::AppendChunk { chunk, .. } => chunk.replicas.len() <= u32::MAX,
        OpView::BeginConvert { .. } => true,
        OpView::CompleteConvert { extents, .. } => extents_fit(extents),
        OpView::SetRedundancyScheme { scheme, .. } => scheme_fits(scheme),
        OpView::PoolMapChange(map) => map.disks.dom().finite() && map.disks.dom().len()
            <= u32::MAX,
        OpView::MetaGroupChange(_) => true,
        OpView::UpdateExtents { extents, .. } => extents_fit(extents),
    }
}

proof fn lemma_lists_len(pairs: Seq<(u128, DiskEntry)>, m: Map<u128, DiskEntry>)
    requires
        crate::proto::lists(pairs, m),
        m.dom().finite(),
    ensures
        pairs.len() == m.dom().len(),
{
    let keys = pairs.map_values(|p: (u128, DiskEntry)| p.0);
    assert(keys.no_duplicates()) by {
        assert forall|i: int, j: int|
            0 <= i < keys.len() && 0 <= j < keys.len() && i != j implies keys[i] != keys[j] by {
            if i < j {
                assert(pairs[i].0 != pairs[j].0);
            } else {
                assert(pairs[j].0 != pairs[i].0);
            }
        }
    }
    keys.unique_seq_to_set();
    assert(keys.to_set() =~= m.dom()) by {
        assert forall|k: u128| m.dom().contains(k) implies keys.to_set().contains(k) by {
            let i = pairs.index_of((k, m[k]));
            assert(keys[i] == k);
        }
        assert forall|k: u128| keys.to_set().contains(k) implies m.dom().contains(k) by {
            let i = keys.index_of(k);
            assert(m.dom().contains(pairs[i].0));
        }
    }
}

/// An operation is read back from its bytes, whatever follows them.
pub proof fn op_round_trip(op: OpView, b: Seq<u8>, rest: Seq<u8>)
    requires
        encodes(op, b),
        op_fits(op),
    ensures
        get_op(b + rest) == Some((op, rest)),
{
    match op {
        OpView::CreateInode(rec) => {
            lemma_add_assoc(seq![0u8], inode_bytes(rec), rest);
            lemma_get_u8(0, inode_bytes(rec) + rest);
            inode_round_trip(rec, rest);
        },
        OpView::Link { parent, name, child } => {
            let t3 = u64_bytes(child) + rest;
            let t2 = str_bytes(name) + t3;
            let t1 = u64_bytes(parent) + t2;
            lemma_add_assoc(
                seq![1u8] + u64_bytes(parent) + str_bytes(name),
                u64_bytes(child),
                rest,
            );
            lemma_add_assoc(seq![1u8] + u64_bytes(parent), str_bytes(name), t3);
            lemma_add_assoc(seq![1u8], u64_bytes(parent), t2);
            lemma_get_u8(1, t1);
            lemma_get_u64(parent, t2);
            str_round_trip(name, t3);
            lemma_get_u64(child, rest);
        },
        OpView::Unlink { parent, name } => {
            let t2 = str_bytes(name) + rest;
            let t1 = u64_bytes(parent) + t2;
            lemma_add_assoc(seq![2u8] + u64_bytes(parent), str_bytes(name), rest);
            lemma_add_assoc(seq![2u8], u64_bytes(parent), t2);
            lemma_get_u8(2, t1);
            lemma_get_u64(parent, t2);
            str_round_trip(name, rest);
        },
        OpView::AppendChunk { inode, chunk } => {
            lemma_tagged(3, inode, chunk_bytes(chunk), rest);
            chunk_round_trip(chunk, rest);
        },
        OpView::BeginConvert { inode } => {
            lemma_add_assoc(seq![4u8], u64_bytes(inode), rest);
            lemma_get_u8(4, u64_bytes(inode) + rest);
            lemma_get_u64(inode, rest);
        },
        OpView::CompleteConvert { inode, extents } => {
            lemma_tagged(5, inode, extents_bytes(extents), rest);
            extents_round_trip(extents, rest);
        },
        OpView::SetRedundancyScheme { inode, scheme } => {
            lemma_tagged(6, inode, scheme_bytes(scheme), rest);
            scheme_round_trip(scheme, rest);
        },
        OpView::PoolMapChange(map) => {
            let pairs = choose|pairs: Seq<(u128, DiskEntry)>|
                crate::proto::lists(pairs, map.disks) && b == #[trigger] op_bytes(op, pairs);
            lemma_lists_len(pairs, map.disks);
            lemma_add_assoc(seq![7u8], pool_bytes(map.epoch, pairs), rest);
            lemma_get_u8(7, pool_bytes(map.epoch, pairs) + rest);
            pool_round_trip(map, pairs, rest);
        },
        OpView::MetaGroupChange(group) => {
            lemma_add_assoc(seq![8u8], group_bytes(group), rest);
            lemma_get_u8(8, group_bytes(group) + rest);
            group_round_trip(group, rest);
        },
        OpView::UpdateExtents { inode, extents } => {
            lemma_tagged(9, inode, extents_bytes(extents), rest);
            extents_round_trip(extents, rest);
        },
    }
}

proof fn lemma_tagged(tag: u8, inode: u64, body: Seq<u8>, rest: Seq<u8>)
    ensures
        get_u8((seq![tag] + u64_bytes(inode) + body) + rest) == Some(
            (tag, u64_bytes(inode) + (body + rest)),
        ),
        get_u64(u64_bytes(inode) + (body + rest)) == Some((inode, body + rest)),
{
    lemma_add_assoc(seq![tag] + u64_bytes(inode), body, rest);
    lemma_add_assoc(seq![tag], u64_bytes(inode), body + rest);
    lemma_get_u8(tag, u64_bytes(inode) + (body + rest));
    lemma_get_u64(inode, body + rest);
}

// ---------------------------------------------------------------------
// What is read fits

proof fn lemma_get_list_len<T>(
    b: Seq<u8>,
    n: nat,
    get: spec_fn(Seq<u8>) -> Option<(T, Seq<u8>)>,
)
    ensures
        get_list(b, n, get) matches Some((xs, _)) ==> xs.len() == n,
    decreases n,
{
    if n > 0 {
        lemma_get_list_len(b, (n - 1) as nat, get);
    }
}

proof fn lemma_got_extents(b: Seq<u8>, n: nat)
    ensures
        get_list(b, n, extent_getter()) matches Some((xs, _)) ==> forall|i: int|
            0 <= i < xs.len() ==> (#[trigger] xs[i]).replicas.len() <= u32::MAX,
    decreases n,
{
    if n > 0 {
        lemma_got_extents(b, (n - 1) as nat);
        if let Some((xs, rest)) = get_list(b, (n - 1) as nat, extent_getter()) {
            lemma_got_extent(rest);
        }
    }
}

proof fn lemma_got_extent(b: Seq<u8>)
    ensures
        get_extent(b) matches Some((x, _)) ==> x.replicas.len() <= u32::MAX,
{
    if let Some((file_offset, rest)) = get_u64(b) {
        if let Some((len, rest)) = get_u32(rest) {
            lemma_got_replicas(rest);
        }
    }
}

proof fn lemma_got_replicas(b: Seq<u8>)
    ensures
        get_replicas(b) matches Some((rs, _)) ==> rs.len() <= u32::MAX,
{
    if let Some((n, rest)) = get_u32(b) {
        lemma_get_list_len(rest, n as nat, replica_getter());
    }
}

proof fn lemma_got_chunk(b: Seq<u8>)
    ensures
        get_chunk(b) matches Some((c, _)) ==> c.replicas.len() <= u32::MAX,
{
    if let Some((chunk_seq, rest)) = get_u64(b) {
        lemma_got_replicas(rest);
    }
}

proof fn lemma_got_chunks(b: Seq<u8>, n: nat)
    ensures
        get_list(b, n, chunk_getter()) matches Some((cs, _)) ==> forall|i: int|
            0 <= i < cs.len() ==> (#[trigger] cs[i]).replicas.len() <= u32::MAX,
    decreases n,
{
    if n > 0 {
        lemma_got_chunks(b, (n - 1) as nat);
        if let Some((cs, rest)) = get_list(b, (n - 1) as nat, chunk_getter()) {
            lemma_got_chunk(rest);
        }
    }
}

proof fn lemma_got_counted_extents(b: Seq<u8>)
    ensures
        get_extents(b) matches Some((xs, _)) ==> extents_fit(xs),
{
    if let Some((n, rest)) = get_u32(b) {
        lemma_get_list_len(rest, n as nat, extent_getter());
        lemma_got_extents(rest, n as nat);
    }
}

proof fn lemma_got_scheme(b: Seq<u8>)
    ensures
        get_scheme(b) matches Some((s, _)) ==> scheme_fits(s),
{
    if let Some((tag, rest)) = get_u8(b) {
        if let Some((n, rest)) = get_u32(rest) {
            lemma_get_list_len(rest, n as nat, slot_getter());
        }
    }
}

proof fn lemma_got_locator(b: Seq<u8>)
    ensures
        get_locator(b) matches Some((l, _)) ==> locator_fits(l),
{
    if let Some((tag, rest)) = get_u8(b) {
        lemma_got_counted_extents(rest);
        if let Some((n, rest)) = get_u32(rest) {
            lemma_get_list_len(rest, n as nat, chunk_getter());
            lemma_got_chunks(rest, n as nat);
        }
    }
}

/// Every list of a record that was read has a length that fits in 32 bits.
pub proof fn lemma_got_inode(b: Seq<u8>)
    ensures
        get_inode(b) matches Some((r, _)) ==> inode_fits(r),
{
    if let Some((inode, rest)) = get_u64(b) {
        if let Some((mode, rest)) = get_mode(rest) {
            if let Some((size, rest)) = get_u64(rest) {
                lemma_got_scheme(rest);
                if let Some((redundancy, rest)) = get_scheme(rest) {
                    lemma_got_locator(rest);
                }
            }
        }
    }
}

proof fn lemma_map_of_len(pairs: Seq<(u128, DiskEntry)>)
    ensures
        map_of(pairs).dom().finite(),
        map_of(pairs).dom().len() <= pairs.len(),
    decreases pairs.len(),
{
    if pairs.len() > 0 {
        lemma_map_of_len(pairs.drop_last());
    }
}

proof fn lemma_got_str(b: Seq<u8>)
    ensures
        get_str(b) matches Some((s, _)) ==> encode_utf8(s).len() <= u32::MAX,
{
    broadcast use decode_utf8_encode_utf8;

}

/// Every list and string of an operation that was read has a length that fits
/// in 32 bits.
pub proof fn lemma_got_op(b: Seq<u8>)
    ensures
        get_op(b) matches Some((op, _)) ==> op_fits(op),
{
    if let Some((tag, rest)) = get_u8(b) {
        lemma_got_inode(rest);
        if let Some((n, body)) = get_u64(rest) {
            lemma_got_str(body);
            lemma_got_chunk(body);
            lemma_got_counted_extents(body);
            lemma_got_scheme(body);
            if let Some((count, list)) = get_u32(body) {
                lemma_get_list_len(list, count as nat, entry_getter());
                if let Some((pairs, _)) = get_list(list, count as nat, entry_getter()) {
                    lemma_map_of_len(pairs);
                }
            }
        }
    }
}

/// A list of things of one length is as long as all of them.
pub proof fn lemma_list_bytes_len<T>(xs: Seq<T>, put: spec_fn(T) -> Seq<u8>, n: nat)
    requires
        forall|x: T| #[trigger] put(x).len() == n,
    ensures
        list_bytes(xs, put).len() == n * xs.len(),
    decreases xs.len(),
{
    if xs.len() > 0 {
        lemma_list_bytes_len(xs.drop_last(), put, n);
        let k = (xs.len() - 1) as nat;
        assert(n * k + n == n * xs.len()) by (nonlinear_arith)
            requires
                xs.len() == k + 1,
        ;
    } else {
        assert(n * 0 == 0) by (nonlinear_arith);
    }
}

/// How long the places of replicas are as bytes: 24 for each, behind their count.
pub proof fn replicas_have_one_length(rs: Seq<(Uuid, u64)>)
    ensures
        replicas_bytes(rs).len() == 4 + 24 * rs.len(),
{
    broadcast use bytes::lemma_le_len;

    lemma_list_bytes_len(rs, put_replica(), 24);
}

/// Every operation starts with its own number, and those on an inode have the
/// inode's number behind it, lowest byte first.
pub proof fn operations_start_with_their_number(op: OpView, b: Seq<u8>)
    requires
        encodes(op, b),
    ensures
        b.len() > 0,
        b[0] == match op {
            OpView::CreateInode(_) => 0u8,
            OpView::Link { .. } => 1,
            OpView::Unlink { .. } => 2,
            OpView::AppendChunk { .. } => 3,
            OpView::BeginConvert { .. } => 4,
            OpView::CompleteConvert { .. } => 5,
            OpView::SetRedundancyScheme { .. } => 6,
            OpView::PoolMapChange(_) => 7,
            OpView::MetaGroupChange(_) => 8,
            OpView::UpdateExtents { .. } => 9,
        },
        match op {
            OpView::CreateInode(rec) => b.len() >= 9 && bytes::le_value(b.subrange(1, 9))
                == rec.inode,
            OpView::Link { parent, .. } => b.len() >= 9 && bytes::le_value(b.subrange(1, 9))
                == parent,
            OpView::Unlink { parent, .. } => b.len() >= 9 && bytes::le_value(b.subrange(1, 9))
                == parent,
            OpView::AppendChunk { inode, .. } => b.len() >= 9 && bytes::le_value(
                b.subrange(1, 9),
            ) == inode,
            OpView::BeginConvert { inode } => b.len() >= 9 && bytes::le_value(b.subrange(1, 9))
                == inode,
            OpView::CompleteConvert { inode, .. } => b.len() >= 9 && bytes::le_value(
                b.subrange(1, 9),
            ) == inode,
            OpView::SetRedundancyScheme { inode, .. } => b.len() >= 9 && bytes::le_value(
                b.subrange(1, 9),
            ) == inode,
            OpView::UpdateExtents { inode, .. } => b.len() >= 9 && bytes::le_value(
                b.subrange(1, 9),
            ) == inode,
            _ => true,
        },
{
    broadcast use bytes::lemma_le_len;

    bytes::lemma_pow256_values();
    let n = match op {
        OpView::CreateInode(rec) => rec.inode,
        OpView::Link { parent, .. } => parent,
        OpView::Unlink { parent, .. } => parent,
        OpView::AppendChunk { inode, .. } => inode,
        OpView::BeginConvert { inode } => inode,
        OpView::CompleteConvert { inode, .. } => inode,
        OpView::SetRedundancyScheme { inode, .. } => inode,
        OpView::UpdateExtents { inode, .. } => inode,
        _ => 0,
    };
    bytes::lemma_le_round_trip(n as nat, 8);
    if !(op is PoolMapChange) && !(op is MetaGroupChange) {
        assert(b.subrange(1, 9) =~= u64_bytes(n));
    }
}

} // verus!
