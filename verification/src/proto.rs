//! The types that every other module shares, each with the mathematical value
//! it stands for.

use crate::hrw;
use std::collections::HashMap;
use vstd::prelude::*;

verus! {

/// A 128-bit identifier.
#[derive(Debug, Clone, Copy, PartialEq, Eq, Structural, Hash, PartialOrd, Ord)]
pub struct Uuid(pub u128);

impl Uuid {
    pub fn nil() -> (id: Self)
        ensures
            id == Uuid(0),
    {
        Uuid(0)
    }
}

pub type InodeId = u64;

pub type DiskId = Uuid;

pub type PoolId = Uuid;

/// A disk can serve file data, hold a metadata replica, or both.
#[derive(Debug, Clone, Copy, PartialEq, Eq, Structural)]
pub struct DiskRoles {
    pub data: bool,
    pub metadata: bool,
}

#[derive(Debug, Clone, Copy, PartialEq, Eq, Structural)]
pub enum DiskState {
    /// In service: new data may be placed here.
    Active,
    /// Being emptied ahead of removal: still readable, no longer a target.
    Draining,
    /// Gone.
    Dead,
}

/// The speed class of a disk.
#[derive(Debug, Clone, Copy, PartialEq, Eq, Structural)]
pub enum DiskClass {
    Hdd,
    Ssd,
    Nvme,
}

/// The class as a number.
pub open spec fn class_number(c: DiskClass) -> u8 {
    match c {
        DiskClass::Hdd => hrw::CLASS_HDD,
        DiskClass::Ssd => hrw::CLASS_SSD,
        DiskClass::Nvme => hrw::CLASS_NVME,
    }
}

impl DiskClass {
    pub fn to_ffi(self) -> (n: u8)
        ensures
            n == class_number(self),
    {
        match self {
            DiskClass::Hdd => hrw::CLASS_HDD,
            DiskClass::Ssd => hrw::CLASS_SSD,
            DiskClass::Nvme => hrw::CLASS_NVME,
        }
    }
}

#[derive(Debug, Clone, Copy, PartialEq, Eq, Structural)]
pub struct DiskEntry {
    pub roles: DiskRoles,
    pub state: DiskState,
    pub class: DiskClass,
    /// The relative placement weight: the bits of an IEEE 754 binary64 number.
    pub weight_bits: u64,
    pub used_bytes: u64,
    pub capacity_bytes: u64,
}

/// The pool's membership, versioned by `epoch`. The disks are keyed by the
/// number of their id.
#[derive(Debug, Clone, Default)]
pub struct PoolMap {
    pub epoch: u64,
    pub disks: HashMap<u128, DiskEntry>,
}

#[verifier::ext_equal]
pub struct PoolView {
    pub epoch: u64,
    pub disks: Map<u128, DiskEntry>,
}

impl View for PoolMap {
    type V = PoolView;

    open spec fn view(&self) -> PoolView {
        PoolView { epoch: self.epoch, disks: self.disks@ }
    }
}

/// `pairs` lists the map, each key once.
pub open spec fn lists(pairs: Seq<(u128, DiskEntry)>, m: Map<u128, DiskEntry>) -> bool {
    &&& forall|i: int|
        0 <= i < pairs.len() ==> m.dom().contains((#[trigger] pairs[i]).0) && m[pairs[i].0]
            == pairs[i].1
    &&& forall|i: int, j: int|
        0 <= i < j < pairs.len() ==> (#[trigger] pairs[i]).0 != (#[trigger] pairs[j]).0
    &&& forall|k: u128| #[trigger] m.dom().contains(k) ==> pairs.contains((k, m[k]))
}

impl PoolMap {
    /// The disks in the order in which the map happens to be walked.
    pub fn entries(&self) -> (pairs: Vec<(u128, DiskEntry)>)
        ensures
            lists(pairs@, self@.disks),
            pairs@.len() == self@.disks.dom().len(),
    {
        broadcast use vstd::std_specs::hash::group_hash_axioms;

        let mut pairs: Vec<(u128, DiskEntry)> = Vec::new();
        let ghost m = self.disks@;
        for kv in iter: self.disks.iter()
            invariant
                m == self.disks@,
                pairs@.len() == iter.index(),
                iter.seq() == vstd::std_specs::iter::IteratorSpec::remaining(
                    &self.disks.iter(),
                ),
                forall|i: int|
                    0 <= i < pairs@.len() ==> #[trigger] pairs@[i] == (
                        *iter.seq()[i].0,
                        *iter.seq()[i].1,
                    ),
        {
            pairs.push((*kv.0, *kv.1));
        }
        proof {
            let walked = vstd::std_specs::iter::IteratorSpec::remaining(
                    &self.disks.iter(),
                );
            assert forall|i: int| 0 <= i < pairs@.len() implies m.dom().contains(
                (#[trigger] pairs@[i]).0,
            ) && m[pairs@[i].0] == pairs@[i].1 by {
                assert(m.contains_key(*walked[i].0));
            }
            assert forall|i: int, j: int| 0 <= i < j < pairs@.len() implies (#[trigger] pairs@[i]).0
                != (#[trigger] pairs@[j]).0 by {
                assert(m[*walked[i].0] == *walked[i].1);
                assert(m[*walked[j].0] == *walked[j].1);
                assert(walked[i] != walked[j]);
            }
            assert forall|k: u128| #[trigger] m.dom().contains(k) implies pairs@.contains(
                (k, m[k]),
            ) by {
                assert(m.contains_key(k));
                let i = walked.index_of((&k, &m[k]));
                assert(pairs@[i] == (k, m[k]));
            }
        }
        pairs
    }
}

/// The first 4 KiB of every pool disk.
#[derive(Debug, Clone, Copy, PartialEq, Eq, Structural)]
pub struct SuperBlock {
    pub pool_id: PoolId,
    pub disk_id: DiskId,
    pub roles: DiskRoles,
    pub format_version: u32,
    pub created_at_unix: u64,
    pub last_seen_epoch: u64,
}

impl SuperBlock {
    /// A fresh superblock, made at `now_unix` seconds past the Unix epoch.
    pub fn new(pool_id: PoolId, disk_id: DiskId, roles: DiskRoles, now_unix: u64) -> (sb: Self)
        ensures
            sb == (SuperBlock {
                pool_id,
                disk_id,
                roles,
                format_version: 1,
                created_at_unix: now_unix,
                last_seen_epoch: 0,
            }),
    {
        SuperBlock {
            pool_id,
            disk_id,
            roles,
            format_version: 1,
            created_at_unix: now_unix,
            last_seen_epoch: 0,
        }
    }
}

/// The disks that hold the synchronously replicated metadata, and the epoch
/// that grows with every change among them.
#[derive(Debug, Clone, Copy, PartialEq, Eq, Structural)]
pub struct MetaGroup {
    pub primary: DiskId,
    pub backup: Option<DiskId>,
    pub epoch: u64,
}

/// A file's lifecycle: created append-only, writable only by way of
/// converting, and never back.
#[derive(Debug, Clone, Copy, PartialEq, Eq, Structural)]
pub enum InodeMode {
    AppendOnly,
    Converting,
    Writable,
}

/// Where one replica of a file goes.
#[derive(Debug, Clone, Copy, PartialEq, Eq, Structural)]
pub enum ReplicaSlot {
    /// Any disk of the class, or any disk at all.
    AnyOfClass(Option<DiskClass>),
    /// This disk and no other.
    Pinned(DiskId),
}

/// How a file's data is kept redundant.
#[derive(Debug, PartialEq, Eq)]
pub enum RedundancyScheme {
    Replicated(Vec<ReplicaSlot>),
    /// Reserved: it can be written down and stored, not placed.
    ErasureCoded { data_shards: u8, parity_shards: u8 },
}

#[verifier::ext_equal]
pub enum SchemeView {
    Replicated(Seq<ReplicaSlot>),
    ErasureCoded { data_shards: u8, parity_shards: u8 },
}

impl View for RedundancyScheme {
    type V = SchemeView;

    open spec fn view(&self) -> SchemeView {
        match self {
            RedundancyScheme::Replicated(slots) => SchemeView::Replicated(slots@),
            RedundancyScheme::ErasureCoded { data_shards, parity_shards } =>
                SchemeView::ErasureCoded {
                data_shards: *data_shards,
                parity_shards: *parity_shards,
            },
        }
    }
}

impl Clone for RedundancyScheme {
    fn clone(&self) -> (r: Self)
        ensures
            r@ == self@,
    {
        match self {
            RedundancyScheme::Replicated(slots) => {
                let copy = slots.clone();
                assert(copy@ =~= slots@);
                RedundancyScheme::Replicated(copy)
            },
            RedundancyScheme::ErasureCoded { data_shards, parity_shards } =>
                RedundancyScheme::ErasureCoded {
                data_shards: *data_shards,
                parity_shards: *parity_shards,
            },
        }
    }
}

/// One chunk of an append-only file: where its replicas start, on which disks,
/// how long it is and its CRC32C.
#[derive(Debug, PartialEq, Eq)]
pub struct ChunkPointer {
    pub chunk_seq: u64,
    pub replicas: Vec<(DiskId, u64)>,
    pub len: u32,
    pub checksum: u32,
}

#[verifier::ext_equal]
pub struct ChunkView {
    pub chunk_seq: u64,
    pub replicas: Seq<(DiskId, u64)>,
    pub len: u32,
    pub checksum: u32,
}

impl View for ChunkPointer {
    type V = ChunkView;

    open spec fn view(&self) -> ChunkView {
        ChunkView {
            chunk_seq: self.chunk_seq,
            replicas: self.replicas@,
            len: self.len,
            checksum: self.checksum,
        }
    }
}

/// A copy of a replica list.
pub fn copy_replicas(replicas: &Vec<(DiskId, u64)>) -> (r: Vec<(DiskId, u64)>)
    ensures
        r@ == replicas@,
{
    let mut r: Vec<(DiskId, u64)> = Vec::new();
    let mut i: usize = 0;
    while i < replicas.len()
        invariant
            i <= replicas@.len(),
            r@ == replicas@.take(i as int),
        decreases replicas@.len() - i,
    {
        r.push(replicas[i]);
        i = i + 1;
        assert(replicas@.take(i as int) =~= replicas@.take(i - 1).push(replicas@[i - 1]));
    }
    assert(replicas@.take(i as int) =~= replicas@);
    r
}

impl Clone for ChunkPointer {
    fn clone(&self) -> (r: Self)
        ensures
            r@ == self@,
    {
        ChunkPointer {
            chunk_seq: self.chunk_seq,
            replicas: copy_replicas(&self.replicas),
            len: self.len,
            checksum: self.checksum,
        }
    }
}

/// One range of a writable file and where its replicas are.
#[derive(Debug, PartialEq, Eq)]
pub struct Extent {
    pub file_offset: u64,
    pub len: u32,
    pub replicas: Vec<(DiskId, u64)>,
    pub checksum: u32,
}

#[verifier::ext_equal]
pub struct ExtentView {
    pub file_offset: u64,
    pub len: u32,
    pub replicas: Seq<(DiskId, u64)>,
    pub checksum: u32,
}

impl View for Extent {
    type V = ExtentView;

    open spec fn view(&self) -> ExtentView {
        ExtentView {
            file_offset: self.file_offset,
            len: self.len,
            replicas: self.replicas@,
            checksum: self.checksum,
        }
    }
}

impl Clone for Extent {
    fn clone(&self) -> (r: Self)
        ensures
            r@ == self@,
    {
        Extent {
            file_offset: self.file_offset,
            len: self.len,
            replicas: copy_replicas(&self.replicas),
            checksum: self.checksum,
        }
    }
}

/// The elements of a list, each as the value it stands for.
pub open spec fn views<T: View>(s: Seq<T>) -> Seq<T::V> {
    Seq::new(s.len(), |i: int| s[i]@)
}

/// Where a file's bytes are.
#[derive(Debug, PartialEq, Eq)]
pub enum DataLocator {
    ChunkLog(Vec<ChunkPointer>),
    Extents(Vec<Extent>),
}

#[verifier::ext_equal]
pub enum LocatorView {
    ChunkLog(Seq<ChunkView>),
    Extents(Seq<ExtentView>),
}

impl View for DataLocator {
    type V = LocatorView;

    open spec fn view(&self) -> LocatorView {
        match self {
            DataLocator::ChunkLog(v) => LocatorView::ChunkLog(views(v@)),
            DataLocator::Extents(v) => LocatorView::Extents(views(v@)),
        }
    }
}

impl Clone for DataLocator {
    fn clone(&self) -> (r: Self)
        ensures
            r@ == self@,
    {
        match self {
            DataLocator::ChunkLog(v) => {
                let copy = v.clone();
                assert(views(copy@) =~= views(v@));
                DataLocator::ChunkLog(copy)
            },
            DataLocator::Extents(v) => {
                let copy = v.clone();
                assert(views(copy@) =~= views(v@));
                DataLocator::Extents(copy)
            },
        }
    }
}

#[derive(Debug, PartialEq, Eq)]
pub struct InodeRecord {
    pub inode: InodeId,
    pub mode: InodeMode,
    pub size: u64,
    pub redundancy: RedundancyScheme,
    pub data: DataLocator,
    pub uid: u32,
    pub gid: u32,
    pub unix_mode: u32,
    pub mtime_unix: u64,
}

#[verifier::ext_equal]
pub struct InodeView {
    pub inode: InodeId,
    pub mode: InodeMode,
    pub size: u64,
    pub redundancy: SchemeView,
    pub data: LocatorView,
    pub uid: u32,
    pub gid: u32,
    pub unix_mode: u32,
    pub mtime_unix: u64,
}

impl View for InodeRecord {
    type V = InodeView;

    open spec fn view(&self) -> InodeView {
        InodeView {
            inode: self.inode,
            mode: self.mode,
            size: self.size,
            redundancy: self.redundancy@,
            data: self.data@,
            uid: self.uid,
            gid: self.gid,
            unix_mode: self.unix_mode,
            mtime_unix: self.mtime_unix,
        }
    }
}

impl Clone for InodeRecord {
    fn clone(&self) -> (r: Self)
        ensures
            r@ == self@,
    {
        InodeRecord {
            inode: self.inode,
            mode: self.mode,
            size: self.size,
            redundancy: self.redundancy.clone(),
            data: self.data.clone(),
            uid: self.uid,
            gid: self.gid,
            unix_mode: self.unix_mode,
            mtime_unix: self.mtime_unix,
        }
    }
}

/// A change to the metadata. Each is logged on every metadata disk before it
/// takes effect.
#[derive(Debug, Clone)]
pub enum MetaOp {
    CreateInode(InodeRecord),
    Link { parent: InodeId, name: String, child: InodeId },
    Unlink { parent: InodeId, name: String },
    AppendChunk { inode: InodeId, chunk: ChunkPointer },
    BeginConvert { inode: InodeId },
    CompleteConvert { inode: InodeId, extents: Vec<Extent> },
    SetRedundancyScheme { inode: InodeId, scheme: RedundancyScheme },
    PoolMapChange(PoolMap),
    MetaGroupChange(MetaGroup),
    UpdateExtents { inode: InodeId, extents: Vec<Extent> },
}

#[verifier::ext_equal]
pub enum OpView {
    CreateInode(InodeView),
    Link { parent: InodeId, name: Seq<char>, child: InodeId },
    Unlink { parent: InodeId, name: Seq<char> },
    AppendChunk { inode: InodeId, chunk: ChunkView },
    BeginConvert { inode: InodeId },
    CompleteConvert { inode: InodeId, extents: Seq<ExtentView> },
    SetRedundancyScheme { inode: InodeId, scheme: SchemeView },
    PoolMapChange(PoolView),
    MetaGroupChange(MetaGroup),
    UpdateExtents { inode: InodeId, extents: Seq<ExtentView> },
}

impl View for MetaOp {
    type V = OpView;

    open spec fn view(&self) -> OpView {
        match self {
            MetaOp::CreateInode(rec) => OpView::CreateInode(rec@),
            MetaOp::Link { parent, name, child } => OpView::Link {
                parent: *parent,
                name: name@,
                child: *child,
            },
            MetaOp::Unlink { parent, name } => OpView::Unlink { parent: *parent, name: name@ },
            MetaOp::AppendChunk { inode, chunk } => OpView::AppendChunk {
                inode: *inode,
                chunk: chunk@,
            },
            MetaOp::BeginConvert { inode } => OpView::BeginConvert { inode: *inode },
            MetaOp::CompleteConvert { inode, extents } => OpView::CompleteConvert {
                inode: *inode,
                extents: views(extents@),
            },
            MetaOp::SetRedundancyScheme { inode, scheme } => OpView::SetRedundancyScheme {
                inode: *inode,
                scheme: scheme@,
            },
            MetaOp::PoolMapChange(map) => OpView::PoolMapChange(map@),
            MetaOp::MetaGroupChange(group) => OpView::MetaGroupChange(*group),
            MetaOp::UpdateExtents { inode, extents } => OpView::UpdateExtents {
                inode: *inode,
                extents: views(extents@),
            },
        }
    }
}

/// Classes have different numbers, none of which stands for any class.
pub proof fn classes_have_their_own_numbers(a: DiskClass, b: DiskClass)
    ensures
        class_number(a) == class_number(b) ==> a == b,
        class_number(a) != 255,
        class_number(DiskClass::Hdd) == 0,
        class_number(DiskClass::Ssd) == 1,
        class_number(DiskClass::Nvme) == 2,
{
}

} // verus!
