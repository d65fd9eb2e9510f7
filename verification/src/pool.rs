//! The pool: disks, placement and the metadata store as one thing that holds
//! files.
//!
//! Every disk is laid out alike:
//!
//! ```text
//! [0, 4096)                                      reserved for a superblock
//! [4096, 4096 + WAL_CAPACITY_BYTES)              the metadata log
//! [SEGMENT_BASE_OFFSET, + SEGMENT_SIZE_BYTES)    file data
//! ```
//!
//! The log is kept on the first two disks, or on the only one. The pool works
//! on handles: one per disk for its data, and one for the log of each disk that
//! has one. The two handles of one disk must not reach into each other's part.

use crate::bytes;
use crate::content::{self, ReadFault};
use crate::crc32c;
use crate::disk::{self, Disk, DiskError, DiskErrorKind, DiskErrorView};
use crate::hash;
use crate::placement;
use crate::proto::{
    self, ChunkPointer, ChunkView, DataLocator, DiskClass, DiskEntry, DiskId, DiskRoles, DiskState,
    Extent, ExtentView, InodeId, InodeMode, InodeRecord, InodeView, LocatorView, MetaGroup, MetaOp,
    OpView, PoolMap, PoolView, RedundancyScheme, ReplicaSlot, SchemeView, Uuid,
};
use crate::replicator::CommitError;
use crate::segment::{self, Record};
use crate::store::{self, MetaState, MetaStore, MetaStoreError, OpFault};
use crate::text;
use crate::wal;
use crate::wire;
use std::collections::HashMap;
use vstd::prelude::*;
use vstd::utf8::*;

verus! {

pub const SUPERBLOCK_RESERVE_BYTES: u64 = 4096;

pub const WAL_BASE_OFFSET: u64 = SUPERBLOCK_RESERVE_BYTES;

pub const SEGMENT_BASE_OFFSET: u64 = WAL_BASE_OFFSET + wal::WAL_CAPACITY_BYTES;

pub const DISK_FILE_CAPACITY_BYTES: u64 = SEGMENT_BASE_OFFSET + segment::SEGMENT_SIZE_BYTES;

pub const ROOT_INODE: InodeId = 1;

/// The file-type bits of a directory in a Unix mode.
pub const S_IFDIR: u32 = 0o040000;

/// The file-type bits of a regular file in a Unix mode.
pub const S_IFREG: u32 = 0o100000;

#[derive(Debug)]
pub enum PoolError {
    Io(DiskError),
    Meta(MetaStoreError),
    /// A replica slot cannot be placed.
    Unplaceable,
    NotFound,
    /// The file's mode does not allow the operation.
    WrongMode,
    NoDisks,
}

/// The text of an error.
pub open spec fn error_text(e: PoolError) -> Seq<char> {
    match e {
        PoolError::Io(d) => "I/O error: "@ + d.message@,
        PoolError::Meta(m) => "metadata error: "@ + store::error_text(m),
        PoolError::Unplaceable => "could not place all required replicas"@,
        PoolError::NotFound => "no such inode"@,
        PoolError::WrongMode => "operation not valid for this file's current mode"@,
        PoolError::NoDisks => "a pool needs at least 1 disk"@,
    }
}

impl PoolError {
    /// The text of the error.
    pub fn message(&self) -> (s: String)
        ensures
            s@ == error_text(*self),
    {
        match self {
            PoolError::Io(d) => text::joined("I/O error: ", d.message.as_str()),
            PoolError::Meta(m) => text::joined("metadata error: ", m.message().as_str()),
            PoolError::Unplaceable => "could not place all required replicas".to_string(),
            PoolError::NotFound => "no such inode".to_string(),
            PoolError::WrongMode =>
                "operation not valid for this file's current mode".to_string(),
            PoolError::NoDisks => "a pool needs at least 1 disk".to_string(),
        }
    }
}

// ---------------------------------------------------------------------
// Disks

struct DiskHandle<D: Disk> {
    disk: D,
    /// The next free byte of the data region.
    cursor: u64,
}

impl<D: Disk> DiskHandle<D> {
    spec fn ok(self) -> bool {
        SEGMENT_BASE_OFFSET + self.cursor <= u64::MAX
    }

    /// `b` was written at the cursor and made durable.
    spec fn took(self, before: Self, b: Seq<u8>) -> bool {
        &&& self.disk.contents() == disk::written(
            before.disk.contents(),
            SEGMENT_BASE_OFFSET + before.cursor,
            b,
        )
        &&& self.disk.durable() == self.disk.contents()
        &&& self.disk.faults() == before.disk.faults()
        &&& self.cursor == before.cursor + b.len()
        &&& self.ok()
    }

    /// Nothing below the cursor was touched.
    spec fn spared(self, before: Self) -> bool {
        &&& self.cursor == before.cursor
        &&& self.disk.contents().len() >= before.disk.contents().len()
        &&& forall|j: int|
            0 <= j < before.disk.contents().len() && j < SEGMENT_BASE_OFFSET + before.cursor
                ==> #[trigger] self.disk.contents()[j] == before.disk.contents()[j]
    }

    /// Appends a record to the data region.
    fn put_record(&mut self, record: &Record) -> (r: Result<u64, DiskError>)
        requires
            old(self).ok(),
        ensures
            match r {
                Ok(at) => at == old(self).cursor && final(self).took(
                    *old(self),
                    segment::record_bytes(record@),
                ) && segment::record_bytes(record@).len() <= segment::room(at),
                Err(_) => final(self).spared(*old(self)),
            },
            segment::record_bytes(record@).len() > segment::room(old(self).cursor)
                ==> (r matches Err(e) && e@ == disk::segment_full()),
            segment::record_bytes(record@).len() <= segment::room(old(self).cursor)
                ==> disk::reported(old(self).disk.faults(), final(self).disk.faults(), r),
    {
        let at: u64 = self.cursor;
        match segment::append_at(&mut self.disk, SEGMENT_BASE_OFFSET, at, record) {
            Ok(next) => match self.disk.sync() {
                Ok(()) => {
                    self.cursor = next;
                    Ok(at)
                },
                Err(e) => Err(e),
            },
            Err(e) => Err(e),
        }
    }

    /// Appends raw bytes to the data region. Fails where the disk does, with the
    /// disk's own failure.
    fn put_raw(&mut self, bytes: &[u8]) -> (r: Result<u64, DiskError>)
        requires
            old(self).ok(),
        ensures
            match r {
                Ok(at) => at == old(self).cursor && final(self).took(*old(self), bytes@),
                Err(_) => final(self).spared(*old(self)),
            },
            disk::reported(old(self).disk.faults(), final(self).disk.faults(), r),
    {
        let at: u64 = self.cursor;
        match self.disk.write_at(SEGMENT_BASE_OFFSET + at, bytes) {
            Ok(()) => match self.disk.sync() {
                Ok(()) => {
                    self.cursor = at + bytes.len() as u64;
                    Ok(at)
                },
                Err(e) => Err(e),
            },
            Err(e) => Err(e),
        }
    }
}

// ---------------------------------------------------------------------
// The pool

pub struct Pool<D: Disk> {
    pool_map: PoolMap,
    /// The disk with the id `n` is the `n`th.
    disks: Vec<DiskHandle<D>>,
    meta: MetaStore<D>,
}

/// The disks that may hold file data.
pub open spec fn data_disks(m: Map<u128, DiskEntry>) -> Set<u128> {
    Set::new(|id: u128| m.dom().contains(id) && m[id].roles.data)
}

pub open spec fn somes(ids: Seq<DiskId>) -> Seq<Option<DiskId>> {
    Seq::new(ids.len(), |i: int| Some(ids[i]))
}

/// `ids` are the disks of the scheme's slots for the key, each slot having one.
pub open spec fn all_placed(
    m: Map<u128, DiskEntry>,
    scheme: SchemeView,
    key: u64,
    ids: Seq<DiskId>,
) -> bool {
    scheme matches SchemeView::Replicated(slots) && placement::is_placed(
        m,
        data_disks(m),
        key,
        slots,
        somes(ids),
    )
}

/// Some slot gets no disk.
pub open spec fn some_unplaced(
    m: Map<u128, DiskEntry>,
    slots: Seq<ReplicaSlot>,
    key: u64,
) -> bool {
    exists|placed: Seq<Option<DiskId>>|
        placed.contains(None) && #[trigger] placement::is_placed(
            m,
            data_disks(m),
            key,
            slots,
            placed,
        )
}

/// No disk of the pool can take the slot.
pub open spec fn slot_unfit(m: Map<u128, DiskEntry>, slot: ReplicaSlot) -> bool {
    forall|id: u128|
        !(#[trigger] placement::may_take(m, data_disks(m), id) && placement::allows(
            slot,
            id,
            m[id],
        ))
}

/// The scheme has a slot that no disk of the pool can take.
pub open spec fn unsatisfiable(m: Map<u128, DiskEntry>, scheme: SchemeView) -> bool {
    scheme matches SchemeView::Replicated(slots) && exists|k: int|
        0 <= k < slots.len() && slot_unfit(m, #[trigger] slots[k])
}

/// The scheme has no placement for the key: some slot gets no disk, or it is
/// of a kind that is not placed.
pub open spec fn unplaceable(m: Map<u128, DiskEntry>, scheme: SchemeView, key: u64) -> bool {
    match scheme {
        SchemeView::Replicated(slots) => some_unplaced(m, slots, key),
        SchemeView::ErasureCoded { .. } => true,
    }
}

/// The map with every disk counted as full whose cursor leaves no room for a
/// record of `n` bytes.
pub open spec fn with_room(m: Map<u128, DiskEntry>, cursors: Seq<u64>, n: nat) -> Map<
    u128,
    DiskEntry,
> {
    Map::new(
        |id: u128| m.dom().contains(id),
        |id: u128|
            if n > segment::room(cursors[id - 1]) {
                DiskEntry { used_bytes: m[id].capacity_bytes, ..m[id] }
            } else {
                m[id]
            },
    )
}

/// A scheme is placed in full or it is not.
pub proof fn placed_or_not(
    m: Map<u128, DiskEntry>,
    scheme: SchemeView,
    key: u64,
    ids: Seq<DiskId>,
)
    requires
        all_placed(m, scheme, key, ids),
    ensures
        !unplaceable(m, scheme, key),
{
    if let SchemeView::Replicated(slots) = scheme {
        if unplaceable(m, scheme, key) {
            let placed = choose|placed: Seq<Option<DiskId>>|
                placed.contains(None) && #[trigger] placement::is_placed(
                    m,
                    data_disks(m),
                    key,
                    slots,
                    placed,
                );
            placement::placed_unique(m, data_disks(m), key, slots, placed, somes(ids));
            let i = placed.index_of(None);
            assert(somes(ids)[i] == Some(ids[i]));
        }
    }
}

/// Some disk's reads fail with `e`.
pub open spec fn some_read_fails(faults: Seq<Set<DiskErrorView>>, e: DiskErrorView) -> bool {
    exists|i: int| 0 <= i < faults.len() && (#[trigger] faults[i]).contains(e)
}

/// `r` is what reading `c` comes to, unless a disk fails: `faults` are the
/// failures of each disk's reads.
pub open spec fn reads_as(
    faults: Seq<Set<DiskErrorView>>,
    c: Result<Seq<u8>, ReadFault>,
    r: Result<Vec<u8>, PoolError>,
) -> bool {
    match r {
        Ok(v) => c == Ok::<Seq<u8>, ReadFault>(v@),
        Err(PoolError::Unplaceable) => c == Err::<Seq<u8>, ReadFault>(ReadFault::NoReplica),
        Err(PoolError::NotFound) => c == Err::<Seq<u8>, ReadFault>(ReadFault::NoSuchDisk),
        Err(PoolError::Io(e)) => if e.kind == DiskErrorKind::UnexpectedEof {
            c == Err::<Seq<u8>, ReadFault>(ReadFault::PastEnd)
        } else {
            some_read_fails(faults, e@)
        },
        Err(PoolError::Meta(MetaStoreError::InvalidOp(m))) => c == Err::<Seq<u8>, ReadFault>(
            ReadFault::BadExtent,
        ) && m@ == "an extent lies outside of its file"@,
        Err(_) => false,
    }
}

/// An operation on the metadata that did not succeed.
pub open spec fn meta_failed<D: Disk>(
    before: Pool<D>,
    op: OpView,
    after: Pool<D>,
    e: PoolError,
) -> bool {
    e matches PoolError::Meta(m) && store::apply_failed(before.meta(), op, after.meta(), m)
}

impl<D: Disk> Pool<D> {
    /// What each disk's data handle holds.
    pub closed spec fn data(self) -> Seq<Seq<u8>> {
        Seq::new(self.disks@.len(), |i: int| self.disks@[i].disk.contents())
    }

    /// What a power loss leaves of it.
    pub closed spec fn durable(self) -> Seq<Seq<u8>> {
        Seq::new(self.disks@.len(), |i: int| self.disks@[i].disk.durable())
    }

    /// The next free byte of each disk's data region.
    pub closed spec fn cursors(self) -> Seq<u64> {
        Seq::new(self.disks@.len(), |i: int| self.disks@[i].cursor)
    }

    /// The failures that each disk's writes and syncs reported so far.
    pub closed spec fn faults(self) -> Seq<Seq<DiskErrorView>> {
        Seq::new(self.disks@.len(), |i: int| self.disks@[i].disk.faults())
    }

    /// The failures that each disk's reads report.
    pub closed spec fn read_faults(self) -> Seq<Set<DiskErrorView>> {
        Seq::new(self.disks@.len(), |i: int| self.disks@[i].disk.read_faults())
    }

    pub closed spec fn map(self) -> PoolView {
        self.pool_map@
    }

    pub closed spec fn meta(self) -> MetaStore<D> {
        self.meta
    }

    /// What the metadata says.
    pub open spec fn state(self) -> MetaState {
        self.meta()@
    }

    /// The bytes of a file.
    pub open spec fn file(self, inode: InodeId) -> Result<Seq<u8>, ReadFault> {
        content::content(self.data(), self.state().inodes[inode])
    }

    /// The pool is in order.
    pub open spec fn wf(self) -> bool {
        &&& self.meta().wf()
        &&& 1 <= self.cursors().len() <= u32::MAX
        &&& self.data().len() == self.cursors().len()
        &&& self.durable().len() == self.cursors().len()
        &&& self.faults().len() == self.cursors().len()
        &&& self.read_faults().len() == self.cursors().len()
        &&& self.map().disks.dom().len() == self.cursors().len()
        &&& forall|id: u128| #[trigger]
            self.map().disks.dom().contains(id) <==> 1 <= id <= self.cursors().len()
        &&& forall|i: int|
            0 <= i < self.cursors().len() ==> SEGMENT_BASE_OFFSET + #[trigger] self.cursors()[i]
                <= u64::MAX
    }

    /// The disks are as they were.
    pub open spec fn same_disks(self, other: Self) -> bool {
        &&& self.data() == other.data()
        &&& self.durable() == other.durable()
        &&& self.faults() == other.faults()
        &&& self.read_faults() == other.read_faults()
        &&& self.cursors() == other.cursors()
        &&& self.map() == other.map()
    }

    /// One disk reported the failure `e`, and the others none.
    pub open spec fn disk_failed(self, before: Self, e: DiskErrorView) -> bool {
        exists|i: int|
            0 <= i < before.faults().len() && self.faults() == before.faults().update(
                i,
                (#[trigger] before.faults()[i]).push(e),
            )
    }

    /// A file is whole: everything that its record points to is below the cursors,
    /// and the disks reach that far.
    pub open spec fn whole(self, inode: InodeId) -> bool {
        &&& content::covered(self.data(), self.cursors())
        &&& self.state().inodes.dom().contains(inode)
        &&& content::rec_settled(self.cursors(), self.state().inodes[inode])
    }

    /// Every file but `inode` that was whole is so still, with the bytes that it
    /// had.
    pub open spec fn others_kept(self, before: Self, inode: InodeId) -> bool {
        forall|other: InodeId|
            #![trigger self.file(other)]
            #![trigger self.whole(other)]
            other != inode && before.whole(other) ==> self.whole(other) && self.file(other)
                == before.file(other)
    }

    /// No piece of any file, whole or not, ends above the cursor of its disk.
    pub open spec fn bounded(self) -> bool {
        forall|inode: InodeId| #[trigger]
            self.state().inodes.dom().contains(inode) ==> content::rec_bounded(
                self.cursors(),
                self.state().inodes[inode],
            )
    }

    /// Every file is whole, below the cursors.
    pub open spec fn settled(self) -> bool {
        &&& content::covered(self.data(), self.cursors())
        &&& forall|inode: InodeId| #[trigger]
            self.state().inodes.dom().contains(inode) ==> content::rec_settled(
                self.cursors(),
                self.state().inodes[inode],
            )
    }

    /// Below the cursors nothing changed, and they moved up at most, no further
    /// than the disks reach.
    pub open spec fn kept(self, before: Self) -> bool {
        &&& self.map() == before.map()
        &&& content::covered(before.data(), before.cursors()) ==> content::covered(
            self.data(),
            self.cursors(),
        )
        &&& content::same_below(before.data(), self.data(), before.cursors())
        &&& self.cursors().len() == before.cursors().len()
        &&& forall|i: int|
            0 <= i < before.cursors().len() ==> before.cursors()[i] <= #[trigger] self.cursors()[i]
    }

    /// `b` was written at the cursors of the disks `ids` and made durable, and
    /// `replicas` says where.
    pub open spec fn stored(
        self,
        before: Self,
        ids: Seq<DiskId>,
        b: Seq<u8>,
        replicas: Seq<(DiskId, u64)>,
    ) -> bool {
        &&& self.map() == before.map()
        &&& self.cursors().len() == before.cursors().len()
        &&& self.data().len() == before.data().len()
        &&& self.durable().len() == before.durable().len()
        &&& replicas.len() == ids.len()
        &&& forall|k: int|
            0 <= k < ids.len() ==> #[trigger] replicas[k] == (
                ids[k],
                before.cursors()[ids[k].0 - 1],
            )
        &&& forall|i: int|
            0 <= i < before.cursors().len() ==> #[trigger] self.disk_stored(before, ids, b, i)
    }

    /// What became of one disk.
    pub open spec fn disk_stored(
        self,
        before: Self,
        ids: Seq<DiskId>,
        b: Seq<u8>,
        i: int,
    ) -> bool {
        &&& self.faults()[i] == before.faults()[i]
        &&& if ids.contains(Uuid((i + 1) as u128)) {
            &&& self.data()[i] == disk::written(
                before.data()[i],
                SEGMENT_BASE_OFFSET + before.cursors()[i],
                b,
            )
            &&& self.durable()[i] == self.data()[i]
            &&& self.cursors()[i] == before.cursors()[i] + b.len()
        } else {
            &&& self.data()[i] == before.data()[i]
            &&& self.durable()[i] == before.durable()[i]
            &&& self.cursors()[i] == before.cursors()[i]
        }
    }

    pub fn disk_count(&self) -> (n: usize)
        ensures
            n == self.cursors().len(),
    {
        self.disks.len()
    }

    /// The map of the pool, with the disks counted as full that have no room
    /// for a record of `n` bytes.
    fn open_map(&self, n: u64) -> (pm: PoolMap)
        requires
            self.wf(),
        ensures
            pm@.disks == with_room(self.map().disks, self.cursors(), n as nat),
            pm@.disks.dom().len() == self.cursors().len(),
    {
        broadcast use vstd::std_specs::hash::group_hash_axioms;

        let ghost m = self.pool_map@.disks;
        let mut disks: HashMap<u128, DiskEntry> = HashMap::new();
        let mut i: usize = 0;
        while i < self.disks.len()
            invariant
                self.wf(),
                m == self.map().disks,
                m == self.pool_map@.disks,
                i <= self.disks@.len(),
                self.disks@.len() == self.cursors().len(),
                disks@.dom().finite(),
                disks@.dom().len() == i,
                forall|id: u128| #[trigger] disks@.dom().contains(id) <==> 1 <= id <= i,
                forall|id: u128|
                    1 <= id <= i ==> #[trigger] disks@[id] == with_room(
                        m,
                        self.cursors(),
                        n as nat,
                    )[id],
            decreases self.disks@.len() - i,
        {
            broadcast use vstd::std_specs::hash::group_hash_axioms;

            let id: u128 = i as u128 + 1;
            assert(m.dom().contains(id));
            let mut entry: DiskEntry = *self.pool_map.disks.get(&id).unwrap();
            let cursor: u64 = self.disks[i].cursor;
            assert(cursor == self.cursors()[i as int]);
            if n > segment::SEGMENT_SIZE_BYTES.saturating_sub(cursor) {
                entry.used_bytes = entry.capacity_bytes;
            }
            disks.insert(id, entry);
            i = i + 1;
        }
        let pm = PoolMap { epoch: self.pool_map.epoch, disks };
        assert(pm@.disks =~= with_room(m, self.cursors(), n as nat));
        pm
    }

    /// The disks of a scheme's slots for a key, chosen from a map of the pool.
    fn place(&self, map: &PoolMap, scheme: &RedundancyScheme, key: u64) -> (r: Result<
        Vec<DiskId>,
        PoolError,
    >)
        requires
            self.wf(),
            map@.disks.dom().len() == self.cursors().len(),
            forall|id: u128| #[trigger]
                map@.disks.dom().contains(id) <==> 1 <= id <= self.cursors().len(),
        ensures
            match r {
                Ok(ids) => {
                    &&& all_placed(map@.disks, scheme@, key, ids@)
                    &&& ids@.len() <= 16
                    &&& ids@.no_duplicates()
                    &&& forall|k: int|
                        0 <= k < ids@.len() ==> 1 <= (#[trigger] ids@[k]).0 <= self.cursors().len()
                            && placement::accepts(map@.disks[ids@[k].0])
                },
                Err(PoolError::Unplaceable) => unplaceable(map@.disks, scheme@, key),
                Err(_) => false,
            },
    {
        let ghost m = map@.disks;
        let require = |e: &DiskEntry| -> (b: bool)
            ensures
                b == e.roles.data,
            { e.roles.data };
        let placed = match placement::place_redundancy(map, scheme, key, require) {
            Ok(placed) => placed,
            Err(_) => {
                return Err(PoolError::Unplaceable);
            },
        };
        let ghost slots = scheme@->Replicated_0;
        proof {
            let keep = choose|keep: Set<u128>|
                placement::decides(require, m, keep) && #[trigger] placement::is_placed(
                    m,
                    keep,
                    key,
                    slots,
                    placed@,
                );
            assert forall|id: u128| #[trigger] m.dom().contains(id) implies keep.contains(id)
                == data_disks(m).contains(id) by {
                assert(require.ensures((&m[id],), keep.contains(id)));
            }
            placement::lemma_keep_agrees(m, keep, data_disks(m), key, slots, placed@);
        }
        let mut ids: Vec<DiskId> = Vec::new();
        let mut i: usize = 0;
        while i < placed.len()
            invariant
                i <= placed@.len(),
                ids@.len() == i,
                m == map@.disks,
                scheme@ == SchemeView::Replicated(slots),
                placement::is_placed(m, data_disks(m), key, slots, placed@),
                forall|k: int| 0 <= k < i ==> placed@[k] == Some(#[trigger] ids@[k]),
            decreases placed@.len() - i,
        {
            match placed[i] {
                Some(id) => ids.push(id),
                None => {
                    proof {
                        assert(placed@[i as int] == None::<DiskId>);
                        assert(placed@.contains(None::<DiskId>));
                        assert(some_unplaced(m, slots, key));
                    }
                    return Err(PoolError::Unplaceable);
                },
            }
            i = i + 1;
        }
        proof {
            assert(somes(ids@) =~= placed@);
            assert forall|a: int, b: int|
                0 <= a < ids@.len() && 0 <= b < ids@.len() && a != b implies ids@[a]
                != ids@[b] by {
                if a < b {
                    placement::placed_distinct(m, data_disks(m), key, slots, placed@, a, b);
                } else {
                    placement::placed_distinct(m, data_disks(m), key, slots, placed@, b, a);
                }
            }
            assert forall|k: int| 0 <= k < ids@.len() implies 1 <= (#[trigger] ids@[k]).0
                <= self.cursors().len() && placement::accepts(m[ids@[k].0]) by {
                assert(placement::is_pick(
                    m,
                    data_disks(m),
                    key,
                    slots[k],
                    placed@.take(k),
                    placed@[k],
                ));
                assert(m.dom().contains(ids@[k].0));
            }
        }
        Ok(ids)
    }

    /// Appends `record` to each of the disks, and tells where it went.
    fn store_record(&mut self, ids: &Vec<DiskId>, record: &Record) -> (r: Result<
        Vec<(DiskId, u64)>,
        PoolError,
    >)
        requires
            old(self).wf(),
            ids@.no_duplicates(),
            forall|k: int|
                0 <= k < ids@.len() ==> 1 <= (#[trigger] ids@[k]).0 <= old(self).cursors().len()
                    && segment::record_bytes(record@).len() <= segment::room(
                    old(self).cursors()[ids@[k].0 - 1],
                ),
        ensures
            final(self).wf(),
            final(self).meta() == old(self).meta(),
            match r {
                Ok(replicas) => final(self).stored(
                    *old(self),
                    ids@,
                    segment::record_bytes(record@),
                    replicas@,
                ),
                Err(PoolError::Io(e)) => {
                    &&& final(self).kept(*old(self))
                    &&& final(self).disk_failed(*old(self), e@)
                },
                Err(_) => false,
            },
    {
        let ghost before = *self;
        let ghost b = segment::record_bytes(record@);
        let mut replicas: Vec<(DiskId, u64)> = Vec::new();
        let mut k: usize = 0;
        assert(ids@.take(0) =~= Seq::empty());
        while k < ids.len()
            invariant
                k <= ids@.len(),
                b == segment::record_bytes(record@),
                ids@.no_duplicates(),
                forall|j: int|
                    0 <= j < ids@.len() ==> 1 <= (#[trigger] ids@[j]).0 <= before.cursors().len()
                        && b.len() <= segment::room(before.cursors()[ids@[j].0 - 1]),
                before == *old(self),
                before.wf(),
                self.wf(),
                self.meta() == before.meta(),
                self.stored(before, ids@.take(k as int), b, replicas@),
            decreases ids@.len() - k,
        {
            let id: DiskId = ids[k];
            let n: usize = (id.0 - 1) as usize;
            let ghost mid = *self;
            proof {
                lemma_not_yet(ids@, k as int);
                assert(mid.disk_stored(before, ids@.take(k as int), b, n as int));
                assert(mid.cursors()[n as int] == mid.disks@[n as int].cursor);
            }
            match self.disks[n].put_record(record) {
                Ok(at) => {
                    replicas.push((id, at));
                    proof {
                        lemma_one_more(before, mid, *self, ids@, k as int, b, replicas@);
                    }
                },
                Err(e) => {
                    proof {
                        lemma_one_failed(before, mid, *self, ids@, k as int, b, replicas@);
                        lemma_one_reported(
                            before,
                            mid,
                            *self,
                            ids@,
                            k as int,
                            b,
                            replicas@,
                            e@,
                        );
                    }
                    return Err(PoolError::Io(e));
                },
            }
            k = k + 1;
        }
        assert(ids@.take(k as int) =~= ids@);
        Ok(replicas)
    }

    /// Appends raw bytes to each of the disks, and tells where they went.
    fn store_raw(&mut self, ids: &Vec<DiskId>, bytes: &[u8]) -> (r: Result<
        Vec<(DiskId, u64)>,
        PoolError,
    >)
        requires
            old(self).wf(),
            ids@.no_duplicates(),
            forall|k: int|
                0 <= k < ids@.len() ==> 1 <= (#[trigger] ids@[k]).0 <= old(self).cursors().len(),
        ensures
            final(self).wf(),
            final(self).meta() == old(self).meta(),
            match r {
                Ok(replicas) => final(self).stored(*old(self), ids@, bytes@, replicas@),
                Err(PoolError::Io(e)) => {
                    &&& final(self).kept(*old(self))
                    &&& final(self).disk_failed(*old(self), e@)
                },
                Err(_) => false,
            },
    {
        let ghost before = *self;
        let ghost b = bytes@;
        let mut replicas: Vec<(DiskId, u64)> = Vec::new();
        let mut k: usize = 0;
        assert(ids@.take(0) =~= Seq::empty());
        while k < ids.len()
            invariant
                k <= ids@.len(),
                b == bytes@,
                ids@.no_duplicates(),
                forall|j: int|
                    0 <= j < ids@.len() ==> 1 <= (#[trigger] ids@[j]).0 <= before.cursors().len(),
                before == *old(self),
                before.wf(),
                self.wf(),
                self.meta() == before.meta(),
                self.stored(before, ids@.take(k as int), b, replicas@),
            decreases ids@.len() - k,
        {
            let id: DiskId = ids[k];
            let n: usize = (id.0 - 1) as usize;
            let ghost mid = *self;
            proof {
                lemma_not_yet(ids@, k as int);
                assert(mid.disk_stored(before, ids@.take(k as int), b, n as int));
                assert(mid.cursors()[n as int] == mid.disks@[n as int].cursor);
            }
            match self.disks[n].put_raw(bytes) {
                Ok(at) => {
                    replicas.push((id, at));
                    proof {
                        lemma_one_more(before, mid, *self, ids@, k as int, b, replicas@);
                    }
                },
                Err(e) => {
                    proof {
                        lemma_one_failed(before, mid, *self, ids@, k as int, b, replicas@);
                        lemma_one_reported(
                            before,
                            mid,
                            *self,
                            ids@,
                            k as int,
                            b,
                            replicas@,
                            e@,
                        );
                    }
                    return Err(PoolError::Io(e));
                },
            }
            k = k + 1;
        }
        assert(ids@.take(k as int) =~= ids@);
        Ok(replicas)
    }
}

proof fn lemma_not_yet(ids: Seq<DiskId>, k: int)
    requires
        ids.no_duplicates(),
        0 <= k < ids.len(),
    ensures
        !ids.take(k).contains(ids[k]),
{
    if ids.take(k).contains(ids[k]) {
        let j = ids.take(k).index_of(ids[k]);
        assert(ids[j] == ids[k]);
    }
}

/// One disk more took the bytes.
proof fn lemma_one_more<D: Disk>(
    before: Pool<D>,
    mid: Pool<D>,
    after: Pool<D>,
    ids: Seq<DiskId>,
    k: int,
    b: Seq<u8>,
    replicas: Seq<(DiskId, u64)>,
)
    requires
        ids.no_duplicates(),
        0 <= k < ids.len(),
        before.wf(),
        mid.wf(),
        forall|j: int| 0 <= j < ids.len() ==> 1 <= (#[trigger] ids[j]).0 <= before.cursors().len(),
        replicas.len() == k + 1,
        mid.stored(before, ids.take(k), b, replicas.drop_last()),
        after.meta == mid.meta,
        after.pool_map == mid.pool_map,
        ({
            let n = ids[k].0 - 1;
            &&& after.disks@.len() == mid.disks@.len()
            &&& forall|i: int|
                0 <= i < mid.disks@.len() && i != n ==> #[trigger] after.disks@[i] == mid.disks@[i]
            &&& after.disks@[n].took(mid.disks@[n], b)
            &&& replicas.last() == (ids[k], mid.disks@[n].cursor)
        }),
    ensures
        after.wf(),
        after.meta() == mid.meta(),
        after.stored(before, ids.take(k + 1), b, replicas),
{
    let n = ids[k].0 - 1;
    lemma_not_yet(ids, k);
    assert(mid.disk_stored(before, ids.take(k), b, n));
    assert(mid.cursors()[n] == mid.disks@[n].cursor);
    assert(mid.data()[n] == mid.disks@[n].disk.contents());
    assert forall|i: int| 0 <= i < before.cursors().len() implies #[trigger] after.disk_stored(
        before,
        ids.take(k + 1),
        b,
        i,
    ) by {
        let here = Uuid((i + 1) as u128);
        assert(mid.disk_stored(before, ids.take(k), b, i));
        if i == n {
            assert(ids.take(k + 1)[k] == here);
        } else {
            assert(after.disks@[i] == mid.disks@[i]);
            if ids.take(k + 1).contains(here) {
                let j = ids.take(k + 1).index_of(here);
                assert(j < k);
                assert(ids.take(k)[j] == here);
            }
            if ids.take(k).contains(here) {
                let j = ids.take(k).index_of(here);
                assert(ids.take(k + 1)[j] == here);
            }
        }
    }
    assert forall|j: int| 0 <= j < k + 1 implies #[trigger] replicas[j] == (
        ids.take(k + 1)[j],
        before.cursors()[ids.take(k + 1)[j].0 - 1],
    ) by {
        if j < k {
            assert(replicas.drop_last()[j] == replicas[j]);
            assert(ids.take(k)[j] == ids.take(k + 1)[j]);
        }
    }
    assert forall|i: int| 0 <= i < after.cursors().len() implies SEGMENT_BASE_OFFSET
        + #[trigger] after.cursors()[i] <= u64::MAX by {
        if i != n {
            assert(after.disks@[i] == mid.disks@[i]);
            assert(mid.cursors()[i] == after.cursors()[i]);
        }
    }
}

/// One disk failed to take the bytes: what lies below the cursors is as it was.
proof fn lemma_one_failed<D: Disk>(
    before: Pool<D>,
    mid: Pool<D>,
    after: Pool<D>,
    ids: Seq<DiskId>,
    k: int,
    b: Seq<u8>,
    replicas: Seq<(DiskId, u64)>,
)
    requires
        ids.no_duplicates(),
        0 <= k < ids.len(),
        before.wf(),
        mid.wf(),
        forall|j: int| 0 <= j < ids.len() ==> 1 <= (#[trigger] ids[j]).0 <= before.cursors().len(),
        mid.stored(before, ids.take(k), b, replicas),
        after.meta == mid.meta,
        after.pool_map == mid.pool_map,
        ({
            let n = ids[k].0 - 1;
            &&& after.disks@.len() == mid.disks@.len()
            &&& forall|i: int|
                0 <= i < mid.disks@.len() && i != n ==> #[trigger] after.disks@[i] == mid.disks@[i]
            &&& after.disks@[n].spared(mid.disks@[n])
        }),
    ensures
        after.wf(),
        after.meta() == mid.meta(),
        after.kept(before),
{
    let n = ids[k].0 - 1;
    lemma_stored_kept(before, mid, ids.take(k), b, replicas);
    assert(mid.data()[n] == mid.disks@[n].disk.contents());
    assert forall|i: int| 0 <= i < before.data().len() implies (#[trigger] after.data()[i]).len()
        >= before.data()[i].len() by {
        assert(mid.data()[i].len() >= before.data()[i].len());
        if i != n {
            assert(after.disks@[i] == mid.disks@[i]);
        }
    }
    assert forall|i: int, j: int|
        0 <= i < before.data().len() && 0 <= j < before.data()[i].len() && j < SEGMENT_BASE_OFFSET
            + before.cursors()[i] implies #[trigger] after.data()[i][j] == before.data()[i][j] by {
        assert(mid.data()[i][j] == before.data()[i][j]);
        assert(mid.data()[i].len() >= before.data()[i].len());
        assert(before.cursors()[i] <= mid.cursors()[i]);
        if i == n {
            assert(after.disks@[n].disk.contents()[j] == mid.disks@[n].disk.contents()[j]);
        } else {
            assert(after.disks@[i] == mid.disks@[i]);
        }
    }
    assert forall|i: int| 0 <= i < after.cursors().len() implies #[trigger] after.cursors()[i]
        == mid.cursors()[i] by {
        if i != n {
            assert(after.disks@[i] == mid.disks@[i]);
        }
    }
    assert(after.cursors() =~= mid.cursors());
    if content::covered(before.data(), before.cursors()) {
        assert forall|i: int| 0 <= i < after.cursors().len() implies SEGMENT_BASE_OFFSET
            + #[trigger] after.cursors()[i] <= u64::MAX && (after.cursors()[i] > 0
            ==> after.data()[i].len() >= SEGMENT_BASE_OFFSET + after.cursors()[i]) by {
            assert(mid.cursors()[i] == after.cursors()[i]);
            if i != n {
                assert(after.disks@[i] == mid.disks@[i]);
            }
        }
    }
}

/// The disk that failed to take the bytes reported it, and no other did.
proof fn lemma_one_reported<D: Disk>(
    before: Pool<D>,
    mid: Pool<D>,
    after: Pool<D>,
    ids: Seq<DiskId>,
    k: int,
    b: Seq<u8>,
    replicas: Seq<(DiskId, u64)>,
    e: DiskErrorView,
)
    requires
        0 <= k < ids.len(),
        before.wf(),
        mid.wf(),
        1 <= ids[k].0 <= before.cursors().len(),
        mid.stored(before, ids.take(k), b, replicas),
        ({
            let n = ids[k].0 - 1;
            &&& after.disks@.len() == mid.disks@.len()
            &&& forall|i: int|
                0 <= i < mid.disks@.len() && i != n ==> #[trigger] after.disks@[i] == mid.disks@[i]
            &&& after.disks@[n].disk.faults() == mid.disks@[n].disk.faults().push(e)
        }),
    ensures
        after.disk_failed(before, e),
{
    let n = ids[k].0 - 1;
    let aim = before.faults().update(n, before.faults()[n].push(e));
    assert forall|i: int| 0 <= i < before.faults().len() implies after.faults()[i] == aim[i] by {
        assert(mid.disk_stored(before, ids.take(k), b, i));
        assert(mid.faults()[i] == mid.disks@[i].disk.faults());
        if i != n {
            assert(after.disks@[i] == mid.disks@[i]);
        }
    }
    assert(after.faults() =~= aim);
}

/// Storing something leaves what lies below the cursors as it was.
pub proof fn lemma_stored_kept<D: Disk>(
    before: Pool<D>,
    after: Pool<D>,
    ids: Seq<DiskId>,
    b: Seq<u8>,
    replicas: Seq<(DiskId, u64)>,
)
    requires
        before.wf(),
        after.wf(),
        after.stored(before, ids, b, replicas),
    ensures
        after.kept(before),
{
    if content::covered(before.data(), before.cursors()) {
        lemma_stored_covered(before, after, ids, b, replicas);
    }
    assert forall|i: int| 0 <= i < before.data().len() implies (#[trigger] after.data()[i]).len()
        >= before.data()[i].len() by {
        assert(after.disk_stored(before, ids, b, i));
    }
    assert forall|i: int, j: int|
        0 <= i < before.data().len() && 0 <= j < before.data()[i].len() && j < SEGMENT_BASE_OFFSET
            + before.cursors()[i] implies #[trigger] after.data()[i][j] == before.data()[i][j] by {
        assert(after.disk_stored(before, ids, b, i));
    }
    assert forall|i: int| 0 <= i < before.cursors().len() implies before.cursors()[i]
        <= #[trigger] after.cursors()[i] by {
        assert(after.disk_stored(before, ids, b, i));
    }
}

// ---------------------------------------------------------------------
// Reading

/// Copies `p` into `c` from `offset` on.
fn patch(c: &mut Vec<u8>, offset: usize, p: &Vec<u8>)
    requires
        offset + p@.len() <= old(c)@.len(),
    ensures
        final(c)@ == content::patched(old(c)@, offset as int, p@),
{
    let ghost start = c@;
    let mut i: usize = 0;
    let n: usize = p.len();
    let total: usize = c.len();
    assert(c@ =~= content::patched(start, offset as int, p@.take(0)));
    while i < n
        invariant
            i <= n,
            n == p@.len(),
            offset + n <= total,
            c@.len() == total,
            start.len() == total,
            c@ == content::patched(start, offset as int, p@.take(i as int)),
        decreases n - i,
    {
        c[offset + i] = p[i];
        i = i + 1;
        assert(c@ =~= content::patched(start, offset as int, p@.take(i as int)));
    }
    assert(p@.take(n as int) =~= p@);
}

impl<D: Disk> Pool<D> {
    /// Reads `len` bytes that start `header_len` bytes into the first replica.
    fn read_replicated(&self, replicas: &Vec<(DiskId, u64)>, header_len: u64, len: usize) -> (r:
        Result<Vec<u8>, PoolError>)
        requires
            self.wf(),
        ensures
            reads_as(
                self.read_faults(),
                content::piece(self.data(), replicas@, header_len as nat, len as nat),
                r,
            ),
    {
        if replicas.len() == 0 {
            return Err(PoolError::Unplaceable);
        }
        let (id, offset) = replicas[0];
        let count: usize = self.disks.len();
        if id.0 < 1 || id.0 > count as u128 {
            return Err(PoolError::NotFound);
        }
        let n: usize = (id.0 - 1) as usize;
        if offset > u64::MAX - SEGMENT_BASE_OFFSET || header_len > u64::MAX - SEGMENT_BASE_OFFSET
            - offset {
            return Err(PoolError::Io(DiskError::past_end()));
        }
        let mut buf: Vec<u8> = vec![0u8; len];
        match self.disks[n].disk.read_at(
            SEGMENT_BASE_OFFSET + offset + header_len,
            buf.as_mut_slice(),
        ) {
            Ok(()) => Ok(buf),
            Err(e) => {
                proof {
                    if e.kind != DiskErrorKind::UnexpectedEof {
                        assert(self.read_faults()[n as int].contains(e@));
                    }
                }
                Err(PoolError::Io(e))
            },
        }
    }

    /// The bytes of the file with this record.
    pub fn read_full_content(&self, rec: &InodeRecord) -> (r: Result<Vec<u8>, PoolError>)
        requires
            self.wf(),
        ensures
            reads_as(self.read_faults(), content::content(self.data(), rec@), r),
    {
        match &rec.data {
            DataLocator::ChunkLog(chunks) => self.read_chunks(chunks),
            DataLocator::Extents(extents) => {
                if rec.size > usize::MAX as u64 {
                    return Err(
                        PoolError::Meta(
                            MetaStoreError::InvalidOp("an extent lies outside of its file"),
                        ),
                    );
                }
                self.read_extents(rec.size as usize, extents)
            },
        }
    }

    #[verifier::loop_isolation(false)]
    fn read_chunks(&self, chunks: &Vec<ChunkPointer>) -> (r: Result<Vec<u8>, PoolError>)
        requires
            self.wf(),
        ensures
            reads_as(
                self.read_faults(),
                content::chunks_content(self.data(), proto::views(chunks@)),
                r,
            ),
    {
        let ghost all = proto::views(chunks@);
        let ghost data = self.data();
        let mut out: Vec<u8> = Vec::new();
        let mut i: usize = 0;
        assert(all.take(0) =~= Seq::empty());
        while i < chunks.len()
            invariant
                i <= chunks@.len(),
                content::chunks_content(data, all.take(i as int)) == Ok::<Seq<u8>, ReadFault>(
                    out@,
                ),
            decreases chunks@.len() - i,
        {
            let c = &chunks[i];
            proof {
                assert(all.take(i + 1).drop_last() =~= all.take(i as int));
                assert(all.take(i + 1).last() == c@);
            }
            match self.read_replicated(&c.replicas, segment::HEADER_LEN as u64, c.len as usize) {
                Ok(payload) => {
                    let ghost head = out@;
                    let mut payload = payload;
                    let ghost tail = payload@;
                    out.append(&mut payload);
                    assert(out@ =~= head + tail);
                },
                Err(e) => {
                    proof {
                        if let Err(f) = content::chunks_content(data, all.take(i + 1)) {
                            lemma_chunks_stop(data, all, i + 1, f);
                        }
                    }
                    return Err(e);
                },
            }
            i = i + 1;
        }
        assert(all.take(i as int) =~= all);
        Ok(out)
    }

    #[verifier::loop_isolation(false)]
    fn read_extents(&self, size: usize, extents: &Vec<Extent>) -> (r: Result<Vec<u8>, PoolError>)
        requires
            self.wf(),
        ensures
            reads_as(
                self.read_faults(),
                content::overlaid(
                    self.data(),
                    bytes::zeros(size as nat),
                    proto::views(extents@),
                ),
                r,
            ),
    {
        let ghost all = proto::views(extents@);
        let ghost data = self.data();
        let ghost base = bytes::zeros(size as nat);
        let mut out: Vec<u8> = vec![0u8; size];
        assert(out@ =~= base);
        let mut i: usize = 0;
        assert(all.take(0) =~= Seq::empty());
        while i < extents.len()
            invariant
                i <= extents@.len(),
                content::overlaid(data, base, all.take(i as int)) == Ok::<Seq<u8>, ReadFault>(
                    out@,
                ),
            decreases extents@.len() - i,
        {
            let x = &extents[i];
            proof {
                assert(all.take(i + 1).drop_last() =~= all.take(i as int));
                assert(all.take(i + 1).last() == x@);
            }
            let bytes = match self.read_replicated(&x.replicas, 0, x.len as usize) {
                Ok(bytes) => bytes,
                Err(e) => {
                    proof {
                        if let Err(f) = content::overlaid(data, base, all.take(i + 1)) {
                            lemma_overlay_stops(data, base, all, i + 1, f);
                        }
                    }
                    return Err(e);
                },
            };
            let total: usize = out.len();
            if bytes.len() > total || x.file_offset > (total - bytes.len()) as u64 {
                proof {
                    lemma_overlay_stops(data, base, all, i + 1, ReadFault::BadExtent);
                }
                return Err(
                    PoolError::Meta(
                        MetaStoreError::InvalidOp("an extent lies outside of its file"),
                    ),
                );
            }
            patch(&mut out, x.file_offset as usize, &bytes);
            i = i + 1;
        }
        assert(all.take(i as int) =~= all);
        Ok(out)
    }

    pub fn get_inode(&self, id: InodeId) -> (r: Result<Option<InodeRecord>, PoolError>)
        requires
            self.wf(),
        ensures
            match r {
                Ok(Some(rec)) => self.state().inodes.dom().contains(id) && rec@
                    == self.state().inodes[id] && wire::inode_fits(rec@) && rec@.inode == id,
                Ok(None) => !self.state().inodes.dom().contains(id),
                Err(PoolError::Meta(MetaStoreError::Redb(_))) => true,
                Err(_) => false,
            },
    {
        match self.meta.get_inode(id) {
            Ok(found) => Ok(found),
            Err(e) => Err(PoolError::Meta(e)),
        }
    }

    pub fn lookup(&self, parent: InodeId, name: &str) -> (r: Result<Option<InodeId>, PoolError>)
        requires
            self.wf(),
        ensures
            match r {
                Ok(Some(child)) => self.state().dirs.dom().contains((parent, name@))
                    && self.state().dirs[(parent, name@)] == child,
                Ok(None) => !self.state().dirs.dom().contains((parent, name@)),
                Err(PoolError::Meta(MetaStoreError::Redb(_))) => true,
                Err(_) => false,
            },
    {
        match self.meta.lookup(parent, name) {
            Ok(found) => Ok(found),
            Err(e) => Err(PoolError::Meta(e)),
        }
    }

    /// The entries of a directory, sorted by the bytes of their names.
    pub fn readdir(&self, parent: InodeId) -> (r: Result<Vec<(String, InodeId)>, PoolError>)
        requires
            self.wf(),
        ensures
            match r {
                Ok(list) => store::is_listing(self.state().dirs, parent, list@),
                Err(PoolError::Meta(MetaStoreError::Redb(_))) => true,
                Err(_) => false,
            },
    {
        match self.meta.readdir(parent) {
            Ok(list) => Ok(list),
            Err(e) => Err(PoolError::Meta(e)),
        }
    }

    /// Reads up to `len` bytes of a file from `offset` on, fewer where the file
    /// ends before.
    pub fn read(&self, inode: InodeId, offset: u64, len: usize) -> (r: Result<Vec<u8>, PoolError>)
        requires
            self.wf(),
        ensures
            match r {
                Ok(v) => self.state().inodes.dom().contains(inode) && self.file(inode) is Ok && v@
                    == content::window(self.file(inode)->Ok_0, offset as int, len as int),
                Err(e) => load_failed(*self, inode, e),
            },
    {
        self.read_found(self.meta.get_inode(inode), inode, offset, len)
    }

    /// Reads the file whose look-up came to `found`.
    pub fn read_found(
        &self,
        found: Result<Option<InodeRecord>, MetaStoreError>,
        inode: InodeId,
        offset: u64,
        len: usize,
    ) -> (r: Result<Vec<u8>, PoolError>)
        requires
            self.wf(),
            self.may_find(inode, found),
        ensures
            match found {
                Ok(Some(_)) => match r {
                    Ok(v) => self.file(inode) is Ok && v@ == content::window(
                        self.file(inode)->Ok_0,
                        offset as int,
                        len as int,
                    ),
                    Err(e) => reads_as(self.read_faults(), self.file(inode), Err(e)),
                },
                Ok(None) => r == Err::<Vec<u8>, PoolError>(PoolError::NotFound),
                Err(e) => r == Err::<Vec<u8>, PoolError>(PoolError::Meta(e)),
            },
    {
        let rec = match found_inode(found) {
            Ok(rec) => rec,
            Err(e) => {
                return Err(e);
            },
        };
        let bytes = match self.read_full_content(&rec) {
            Ok(bytes) => bytes,
            Err(e) => {
                return Err(e);
            },
        };
        let total: usize = bytes.len();
        let start: usize = if offset < total as u64 {
            offset as usize
        } else {
            total
        };
        let end: usize = if len < total - start {
            start + len
        } else {
            total
        };
        let v: Vec<u8> = vstd::slice::slice_to_vec(
            vstd::slice::slice_subrange(bytes.as_slice(), start, end),
        );
        assert(v@ =~= content::window(bytes@, offset as int, len as int));
        Ok(v)
    }
}

/// The file of an inode could not be read: there is no such inode, its record
/// points to what is not there, or the local tables or a disk failed.
pub open spec fn load_failed<D: Disk>(pool: Pool<D>, inode: InodeId, e: PoolError) -> bool {
    let there = pool.state().inodes.dom().contains(inode);
    match e {
        PoolError::NotFound => there ==> pool.file(inode) == Err::<Seq<u8>, ReadFault>(
            ReadFault::NoSuchDisk,
        ),
        PoolError::Meta(MetaStoreError::Redb(_)) => true,
        _ => there && reads_as(pool.read_faults(), pool.file(inode), Err(e)),
    }
}

proof fn lemma_chunks_stop(data: Seq<Seq<u8>>, chunks: Seq<ChunkView>, n: int, f: ReadFault)
    requires
        0 <= n <= chunks.len(),
        content::chunks_content(data, chunks.take(n)) == Err::<Seq<u8>, ReadFault>(f),
    ensures
        content::chunks_content(data, chunks) == Err::<Seq<u8>, ReadFault>(f),
    decreases chunks.len() - n,
{
    if n < chunks.len() {
        assert(chunks.take(n + 1).drop_last() =~= chunks.take(n));
        lemma_chunks_stop(data, chunks, n + 1, f);
    } else {
        assert(chunks.take(n) =~= chunks);
    }
}

proof fn lemma_overlay_stops(
    data: Seq<Seq<u8>>,
    base: Seq<u8>,
    extents: Seq<ExtentView>,
    n: int,
    f: ReadFault,
)
    requires
        0 <= n <= extents.len(),
        content::overlaid(data, base, extents.take(n)) == Err::<Seq<u8>, ReadFault>(f),
    ensures
        content::overlaid(data, base, extents) == Err::<Seq<u8>, ReadFault>(f),
    decreases extents.len() - n,
{
    if n < extents.len() {
        assert(extents.take(n + 1).drop_last() =~= extents.take(n));
        lemma_overlay_stops(data, base, extents, n + 1, f);
    } else {
        assert(extents.take(n) =~= extents);
    }
}

// ---------------------------------------------------------------------
// Changing

/// The chunk that an append adds.
pub open spec fn new_chunk(
    chunk_seq: u64,
    payload: Seq<u8>,
    replicas: Seq<(DiskId, u64)>,
) -> ChunkView {
    ChunkView {
        chunk_seq,
        replicas,
        len: wire::len32(payload.len()),
        checksum: crc32c::crc(payload),
    }
}

/// The extents of a file that is kept as one: none for an empty file.
pub open spec fn whole_extents(c: Seq<u8>, replicas: Seq<(DiskId, u64)>) -> Seq<ExtentView> {
    if c.len() == 0 {
        Seq::empty()
    } else {
        seq![
            ExtentView {
                file_offset: 0,
                len: wire::len32(c.len()),
                replicas,
                checksum: crc32c::crc(c),
            },
        ]
    }
}

/// The file may be appended to, and has `chunks` so far.
pub open spec fn appendable(rec: InodeView, chunks: Seq<ChunkView>) -> bool {
    rec.mode != InodeMode::Writable && rec.data == LocatorView::ChunkLog(chunks)
}

/// The scheme asks for at least one replica.
pub open spec fn has_slots(scheme: SchemeView) -> bool {
    scheme matches SchemeView::Replicated(slots) && slots.len() > 0
}

impl<D: Disk> Pool<D> {
    /// The metadata took one operation.
    pub open spec fn stepped(self, before: Self, op: OpView) -> bool {
        &&& store::apply_op(before.state(), op) == Ok::<MetaState, OpFault>(self.state())
        &&& self.meta().logged(before.meta(), op)
        &&& before.meta().recoverable() ==> self.meta().recoverable()
        &&& before.meta().mirrored() ==> self.meta().mirrored()
        &&& before.meta().held_by_primary() ==> self.meta().held_by_primary()
        &&& before.meta().held_by_backup() ==> self.meta().held_by_backup()
    }

    /// The payload was stored as a record on every disk that the file's scheme
    /// asks for, chosen among those that had room for it.
    pub open spec fn record_stored(
        self,
        before: Self,
        inode: InodeId,
        payload: Seq<u8>,
        ids: Seq<DiskId>,
        replicas: Seq<(DiskId, u64)>,
    ) -> bool {
        let rec = before.state().inodes[inode];
        let chunks = rec.data->ChunkLog_0;
        let chunk_seq = chunks.len() as u64;
        let b = segment::record_bytes(segment::record(inode, chunk_seq, payload));
        &&& payload.len() <= u32::MAX
        &&& all_placed(
            with_room(before.map().disks, before.cursors(), b.len()),
            rec.redundancy,
            hash::id_hash(inode as u128, chunk_seq),
            ids,
        )
        &&& forall|k: int|
            0 <= k < ids.len() ==> b.len() <= segment::room(
                before.cursors()[(#[trigger] ids[k]).0 - 1],
            )
        &&& self.stored(before, ids, b, replicas)
    }

    /// The payload was stored as one more chunk of the file.
    pub open spec fn appended(
        self,
        before: Self,
        inode: InodeId,
        payload: Seq<u8>,
        ids: Seq<DiskId>,
        replicas: Seq<(DiskId, u64)>,
    ) -> bool {
        &&& self.record_stored(before, inode, payload, ids, replicas)
        &&& self.stepped(before, append_op(before.state(), inode, payload, replicas))
    }

    /// The payload was stored as one more chunk of the file, somewhere.
    pub open spec fn grown(self, before: Self, inode: InodeId, payload: Seq<u8>) -> bool {
        exists|ids: Seq<DiskId>, replicas: Seq<(DiskId, u64)>| #[trigger]
            self.appended(before, inode, payload, ids, replicas)
    }

    /// `c` was stored as the whole of the file, on every disk that the file's
    /// scheme asks for, chosen among those that had room for it.
    pub open spec fn materialized(
        self,
        before: Self,
        inode: InodeId,
        c: Seq<u8>,
        ids: Seq<DiskId>,
        replicas: Seq<(DiskId, u64)>,
    ) -> bool {
        if c.len() == 0 {
            self.same_disks(before)
        } else {
            &&& c.len() <= u32::MAX
            &&& all_placed(
                with_room(before.map().disks, before.cursors(), c.len()),
                before.state().inodes[inode].redundancy,
                hash::id_hash(inode as u128, u64::MAX),
                ids,
            )
            &&& forall|k: int|
                0 <= k < ids.len() ==> c.len() <= segment::room(
                    before.cursors()[(#[trigger] ids[k]).0 - 1],
                )
            &&& self.stored(before, ids, c, replicas)
        }
    }

    /// `c` was stored as the whole of a converting file, which is now writable.
    pub open spec fn converted(self, before: Self, inode: InodeId, c: Seq<u8>) -> bool {
        exists|ids: Seq<DiskId>, replicas: Seq<(DiskId, u64)>|
            #[trigger] self.materialized(before, inode, c, ids, replicas) && self.stepped(
                before,
                OpView::CompleteConvert { inode, extents: whole_extents(c, replicas) },
            )
    }

    /// `c` was stored as the whole of a writable file.
    pub open spec fn rewritten(self, before: Self, inode: InodeId, c: Seq<u8>) -> bool {
        exists|ids: Seq<DiskId>, replicas: Seq<(DiskId, u64)>|
            #[trigger] self.materialized(before, inode, c, ids, replicas) && self.stepped(
                before,
                OpView::UpdateExtents { inode, extents: whole_extents(c, replicas) },
            )
    }

    /// What every operation leaves alone, whether it succeeds or not.
    pub open spec fn went_on(self, before: Self) -> bool {
        self.wf() && self.kept(before)
    }

    /// `found` is what a look-up of a record may come to.
    pub open spec fn may_find(
        self,
        inode: InodeId,
        found: Result<Option<InodeRecord>, MetaStoreError>,
    ) -> bool {
        match found {
            Ok(Some(rec)) => {
                &&& self.state().inodes.dom().contains(inode)
                &&& rec@ == self.state().inodes[inode]
                &&& wire::inode_fits(rec@)
                &&& rec@.inode == inode
            },
            Ok(None) => !self.state().inodes.dom().contains(inode),
            Err(e) => e is Redb,
        }
    }

    /// Logs and applies one operation.
    fn apply_meta(&mut self, op: MetaOp) -> (r: Result<(), PoolError>)
        requires
            old(self).wf(),
            wire::op_fits(op@),
        ensures
            final(self).wf(),
            final(self).same_disks(*old(self)),
            match r {
                Ok(()) => final(self).stepped(*old(self), op@),
                Err(e) => meta_failed(*old(self), op@, *final(self), e),
            },
    {
        match self.meta.apply(op) {
            Ok(()) => Ok(()),
            Err(e) => Err(PoolError::Meta(e)),
        }
    }

    /// Whether there is an inode number to hand out.
    pub fn has_free_inode(&self) -> (yes: bool)
        ensures
            yes == (self.state().next_inode < u64::MAX),
    {
        self.meta.has_free_inode()
    }

    /// Hands out an inode number.
    pub fn alloc_inode(&mut self) -> (id: InodeId)
        requires
            old(self).wf(),
            old(self).state().next_inode < u64::MAX,
        ensures
            final(self).wf(),
            final(self).same_disks(*old(self)),
            final(self).meta().same_log(old(self).meta()),
            id == old(self).state().next_inode,
            final(self).state() == (MetaState {
                next_inode: (id + 1) as u64,
                ..old(self).state()
            }),
    {
        self.meta.alloc_inode()
    }

    /// Creates an append-only file, made at `now_unix`, and links it into
    /// `parent`. Where that fails, the number is used up, and the file may be
    /// there without the link.
    pub fn create_file(
        &mut self,
        parent: InodeId,
        name: &str,
        redundancy: RedundancyScheme,
        uid: u32,
        gid: u32,
        unix_mode: u32,
        now_unix: u64,
    ) -> (r: Result<InodeId, PoolError>)
        requires
            old(self).wf(),
            wire::scheme_fits(redundancy@),
            encode_utf8(name@).len() <= u32::MAX,
        ensures
            final(self).wf(),
            final(self).same_disks(*old(self)),
            old(self).state().next_inode == u64::MAX ==> {
                &&& r matches Err(PoolError::Meta(MetaStoreError::InvalidOp(m))) && m@
                    == store::fault_text(OpFault::NoInodeLeft)
                &&& final(self).state() == old(self).state()
            },
            old(self).state().next_inode < u64::MAX ==> match r {
                Ok(inode) => {
                    &&& inode == old(self).state().next_inode
                    &&& final(self).state() == created(
                        old(self).state(),
                        parent,
                        name@,
                        new_file(
                            inode,
                            redundancy@,
                            uid,
                            gid,
                            unix_mode,
                            now_unix,
                        ),
                    )
                },
                Err(PoolError::Meta(m)) => {
                    &&& store::halfway(
                        old(self).state(),
                        created(
                            old(self).state(),
                            parent,
                            name@,
                            new_file(
                                old(self).state().next_inode,
                                redundancy@,
                                uid,
                                gid,
                                unix_mode,
                                now_unix,
                            ),
                        ),
                        final(self).state(),
                    )
                    &&& match m {
                        MetaStoreError::Commit(CommitError::PrimaryUnavailable(d)) =>
                            final(self).meta().primary().faults()
                                == old(self).meta().primary().faults().push(d@),
                        MetaStoreError::Redb(_) => true,
                        MetaStoreError::InvalidOp(text) => {
                            &&& text@ == store::fault_text(OpFault::LogFull)
                            &&& {
                                ||| final(self).state().inodes == old(self).state().inodes
                                    && store::log_is_full(
                                    final(self).meta().log_at() as int,
                                    OpView::CreateInode(
                                        new_file(
                                            old(self).state().next_inode,
                                            redundancy@,
                                            uid,
                                            gid,
                                            unix_mode,
                                            now_unix,
                                        ),
                                    ),
                                )
                                ||| store::log_is_full(
                                    final(self).meta().log_at() as int,
                                    OpView::Link {
                                        parent,
                                        name: name@,
                                        child: old(self).state().next_inode,
                                    },
                                )
                            }
                        },
                        _ => false,
                    }
                },
                Err(_) => false,
            },
            r matches Ok(inode) ==> {
                &&& final(self).file(inode) == Ok::<Seq<u8>, ReadFault>(Seq::empty())
                &&& content::covered(old(self).data(), old(self).cursors())
                    ==> final(self).whole(inode)
                &&& final(self).others_kept(*old(self), inode)
                &&& old(self).settled() ==> final(self).settled()
                &&& old(self).bounded() ==> final(self).bounded()
            },
            safe(*old(self)) && r is Ok ==> safe(*final(self)),
            r is Ok ==> old(self).meta().log_at() <= final(self).meta().log_at()
                && final(self).meta().log_base() == old(self).meta().log_base(),
            old(self).meta().recoverable() && r is Ok ==> final(self).meta().recoverable(),
            old(self).meta().mirrored() && r is Ok ==> final(self).meta().mirrored(),
            old(self).meta().held_by_primary() && r is Ok
                ==> final(self).meta().held_by_primary(),
            old(self).meta().held_by_backup() && r is Ok ==> final(self).meta().held_by_backup(),
    {
        if !self.has_free_inode() {
            return Err(
                PoolError::Meta(MetaStoreError::InvalidOp("no inode number is left")),
            );
        }
        let ghost s0 = self.state();
        let inode: u64 = self.meta.alloc_inode();
        let rec = InodeRecord {
            inode,
            mode: InodeMode::AppendOnly,
            size: 0,
            redundancy,
            data: DataLocator::ChunkLog(Vec::new()),
            uid,
            gid,
            unix_mode,
            mtime_unix: now_unix,
        };
        let ghost file = rec@;
        let ghost aim = created(s0, parent, name@, file);
        proof {
            assert(proto::views(Seq::<ChunkPointer>::empty()) =~= Seq::<ChunkView>::empty());
            assert(file == new_file(inode, redundancy@, uid, gid, unix_mode, now_unix));
        }
        match self.apply_meta(MetaOp::CreateInode(rec)) {
            Ok(()) => {},
            Err(e) => {
                return Err(e);
            },
        }
        match self.apply_meta(MetaOp::Link { parent, name: name.to_string(), child: inode }) {
            Ok(()) => {
                proof {
                    lemma_others_kept(*old(self), *self, inode);
                }
                Ok(inode)
            },
            Err(e) => Err(e),
        }
    }

    /// Removes a directory entry, if it is there.
    pub fn unlink(&mut self, parent: InodeId, name: &str) -> (r: Result<(), PoolError>)
        requires
            old(self).wf(),
            encode_utf8(name@).len() <= u32::MAX,
        ensures
            final(self).wf(),
            final(self).same_disks(*old(self)),
            match r {
                Ok(()) => final(self).stepped(*old(self), OpView::Unlink { parent, name: name@ }),
                Err(e) => meta_failed(
                    *old(self),
                    OpView::Unlink { parent, name: name@ },
                    *final(self),
                    e,
                ),
            },
    {
        self.apply_meta(MetaOp::Unlink { parent, name: name.to_string() })
    }

    /// Whether every slot of a scheme can be placed on some disk.
    fn can_satisfy(&self, scheme: &RedundancyScheme) -> (yes: bool)
        requires
            self.wf(),
        ensures
            yes == !unsatisfiable(self.map().disks, scheme@),
    {
        let slots = match scheme {
            RedundancyScheme::Replicated(slots) => slots,
            RedundancyScheme::ErasureCoded { .. } => {
                return true;
            },
        };
        let ghost m = self.map().disks;
        let mut i: usize = 0;
        while i < slots.len()
            invariant
                i <= slots@.len(),
                self.wf(),
                m == self.map().disks,
                scheme@ == SchemeView::Replicated(slots@),
                forall|k: int| 0 <= k < i ==> !slot_unfit(m, #[trigger] slots@[k]),
            decreases slots@.len() - i,
        {
            let slot = slots[i];
            let mut one: Vec<ReplicaSlot> = Vec::new();
            one.push(slot);
            let ghost alone = one@;
            match self.place(&self.pool_map, &RedundancyScheme::Replicated(one), 0) {
                Ok(ids) => {
                    proof {
                        let placed = somes(ids@);
                        assert(placement::is_pick(
                            m,
                            data_disks(m),
                            0,
                            alone[0],
                            placed.take(0),
                            placed[0],
                        ));
                        assert(placement::may_take(m, data_disks(m), ids@[0].0));
                        assert(!slot_unfit(m, slot));
                    }
                },
                Err(_) => {
                    proof {
                        let placed = choose|placed: Seq<Option<DiskId>>|
                            placed.contains(None) && #[trigger] placement::is_placed(
                                m,
                                data_disks(m),
                                0,
                                alone,
                                placed,
                            );
                        assert(some_unplaced(m, alone, 0));
                        assert(placed[placed.index_of(None)] is None);
                        assert(placed[0] is None);
                        assert(placement::is_pick(
                            m,
                            data_disks(m),
                            0,
                            alone[0],
                            placed.take(0),
                            placed[0],
                        ));
                        assert forall|id: u128| !(#[trigger] placement::may_take(
                            m,
                            data_disks(m),
                            id,
                        ) && placement::allows(slot, id, m[id])) by {
                            assert(!placement::may_fill(
                                m,
                                data_disks(m),
                                slot,
                                placed.take(0),
                                id,
                            ));
                        }
                        assert(slot_unfit(m, slots@[i as int]));
                        assert(scheme@->Replicated_0 == slots@);
                        assert(unsatisfiable(m, SchemeView::Replicated(slots@)));
                    }
                    return false;
                },
            }
            i = i + 1;
        }
        true
    }

    /// Changes the redundancy scheme of a file. What is stored already stays
    /// where it is. A scheme with a slot that no disk of the pool can take is
    /// refused.
    pub fn set_redundancy(&mut self, inode: InodeId, scheme: RedundancyScheme) -> (r: Result<
        (),
        PoolError,
    >)
        requires
            old(self).wf(),
            wire::scheme_fits(scheme@),
        ensures
            final(self).wf(),
            final(self).same_disks(*old(self)),
            unsatisfiable(old(self).map().disks, scheme@) ==> {
                &&& r == Err::<(), PoolError>(PoolError::Unplaceable)
                &&& *final(self) == *old(self)
            },
            match r {
                Ok(()) => final(self).stepped(
                    *old(self),
                    OpView::SetRedundancyScheme { inode, scheme: scheme@ },
                ),
                Err(PoolError::Unplaceable) => unsatisfiable(old(self).map().disks, scheme@),
                Err(e) => meta_failed(
                    *old(self),
                    OpView::SetRedundancyScheme { inode, scheme: scheme@ },
                    *final(self),
                    e,
                ),
            },
    {
        if !self.can_satisfy(&scheme) {
            return Err(PoolError::Unplaceable);
        }
        self.apply_meta(MetaOp::SetRedundancyScheme { inode, scheme })
    }

    /// Flips an append-only file to converting.
    pub fn begin_convert(&mut self, inode: InodeId) -> (r: Result<(), PoolError>)
        requires
            old(self).wf(),
        ensures
            final(self).wf(),
            final(self).same_disks(*old(self)),
            match r {
                Ok(()) => final(self).stepped(*old(self), OpView::BeginConvert { inode }),
                Err(e) => meta_failed(
                    *old(self),
                    OpView::BeginConvert { inode },
                    *final(self),
                    e,
                ),
            },
    {
        self.apply_meta(MetaOp::BeginConvert { inode })
    }

    /// Appends `payload` to a file: a record on every disk that the file's
    /// scheme asks for, durable on all of them before the metadata says so. A
    /// disk that has no room for it is passed over. A payload that is longer than
    /// a chunk can say is refused.
    pub fn append(&mut self, inode: InodeId, payload: Vec<u8>) -> (r: Result<(), PoolError>)
        requires
            old(self).wf(),
        ensures
            final(self).went_on(*old(self)),
            no_look_up(*old(self), *final(self), r) || appends(
                *old(self),
                *final(self),
                inode,
                payload@,
                r,
            ),
    {
        let found = self.meta.get_inode(inode);
        self.append_found(found, inode, payload)
    }

    /// Appends to the file whose look-up came to `found`.
    pub fn append_found(
        &mut self,
        found: Result<Option<InodeRecord>, MetaStoreError>,
        inode: InodeId,
        payload: Vec<u8>,
    ) -> (r: Result<(), PoolError>)
        requires
            old(self).wf(),
            old(self).may_find(inode, found),
        ensures
            final(self).went_on(*old(self)),
            match found {
                Ok(_) => appends(*old(self), *final(self), inode, payload@, r),
                Err(e) => r == Err::<(), PoolError>(PoolError::Meta(e)) && *final(self)
                    == *old(self),
            },
    {
        let ghost before = *self;
        let rec = match found_inode(found) {
            Ok(rec) => rec,
            Err(e) => {
                return Err(e);
            },
        };
        let chunk_seq: u64 = match next_chunk(&rec) {
            Ok(chunk_seq) => chunk_seq,
            Err(e) => {
                return Err(e);
            },
        };
        let key: u64 = placement::placement_key(inode, chunk_seq);
        let len: u32 = match piece_len(payload.len()) {
            Ok(len) => len,
            Err(e) => {
                return Err(e);
            },
        };
        let need: u64 = len as u64 + segment::HEADER_LEN as u64;
        let ghost b = segment::record_bytes(segment::record(inode, chunk_seq, payload@));
        let map = self.open_map(need);
        proof {
            broadcast use bytes::lemma_le_len;

            assert(b.len() == segment::HEADER_LEN + payload@.len());
            assert(map@.disks =~= with_room(before.map().disks, before.cursors(), b.len()));
        }
        let ids = match self.place(&map, &rec.redundancy, key) {
            Ok(ids) => ids,
            Err(_) => {
                return Err(PoolError::Unplaceable);
            },
        };
        let ghost body = payload@;
        let record = Record::new(inode, chunk_seq, payload);
        let replicas = match self.store_record(&ids, &record) {
            Ok(replicas) => replicas,
            Err(e) => {
                return Err(e);
            },
        };
        let ghost mid = *self;
        let ghost rs = replicas@;
        proof {
            lemma_stored_kept(before, mid, ids@, segment::record_bytes(record@), rs);
        }
        let chunk = ChunkPointer { chunk_seq, replicas, len, checksum: record.checksum };
        let ghost op = append_op(before.state(), inode, body, rs);
        assert(chunk@ == new_chunk(chunk_seq, body, rs));
        match self.apply_meta(MetaOp::AppendChunk { inode, chunk }) {
            Ok(()) => {
                proof {
                    lemma_stored_still(
                        before,
                        mid,
                        *self,
                        ids@,
                        segment::record_bytes(record@),
                        rs,
                    );
                    assert(self.appended(before, inode, body, ids@, rs));
                    if before.whole(inode) && has_slots(rec@.redundancy) {
                        lemma_append_content(before, *self, inode, body, ids@, rs);
                    }
                    if before.bounded() {
                        lemma_append_bounded(before, *self, inode, body, ids@, rs);
                    }
                    lemma_others_kept(before, *self, inode);
                }
                Ok(())
            },
            Err(e) => {
                proof {
                    lemma_stored_still(
                        before,
                        mid,
                        *self,
                        ids@,
                        segment::record_bytes(record@),
                        rs,
                    );
                    assert(self.record_stored(before, inode, body, ids@, rs));
                    assert(meta_failed(before, op, *self, e));
                }
                Err(e)
            },
        }
    }
}

/// The look-up of a record failed, and nothing happened.
pub open spec fn no_look_up<D: Disk>(
    before: Pool<D>,
    after: Pool<D>,
    r: Result<(), PoolError>,
) -> bool {
    after == before && r matches Err(PoolError::Meta(MetaStoreError::Redb(_)))
}

/// What an append to a file whose record was looked up comes to.
pub open spec fn appends<D: Disk>(
    before: Pool<D>,
    after: Pool<D>,
    inode: InodeId,
    payload: Seq<u8>,
    r: Result<(), PoolError>,
) -> bool {
    let rec = before.state().inodes[inode];
    match r {
        Ok(()) => {
            &&& before.state().inodes.dom().contains(inode)
            &&& appendable(rec, rec.data->ChunkLog_0)
            &&& after.grown(before, inode, payload)
            &&& after.others_kept(before, inode)
            &&& before.whole(inode) && has_slots(rec.redundancy) ==> {
                &&& after.whole(inode)
                &&& before.file(inode) is Ok
                &&& after.file(inode) == Ok::<Seq<u8>, ReadFault>(
                    before.file(inode)->Ok_0 + payload,
                )
            }
            &&& before.settled() && has_slots(rec.redundancy) ==> after.settled()
            &&& before.bounded() ==> after.bounded()
        },
        Err(e) => append_failed(before, after, inode, payload, e),
    }
}

/// The operation that adds a chunk to a file.
pub open spec fn append_op(
    s: MetaState,
    inode: InodeId,
    payload: Seq<u8>,
    replicas: Seq<(DiskId, u64)>,
) -> OpView {
    OpView::AppendChunk {
        inode,
        chunk: new_chunk(s.inodes[inode].data->ChunkLog_0.len() as u64, payload, replicas),
    }
}

/// The payload was stored, and the operation that adds it to the file did not
/// succeed.
pub open spec fn not_grown<D: Disk>(
    before: Pool<D>,
    inode: InodeId,
    payload: Seq<u8>,
    after: Pool<D>,
    e: PoolError,
) -> bool {
    exists|ids: Seq<DiskId>, replicas: Seq<(DiskId, u64)>| #[trigger]
        after.record_stored(before, inode, payload, ids, replicas) && meta_failed(
            before,
            append_op(before.state(), inode, payload, replicas),
            after,
            e,
        )
}

/// The record that was asked for, from what the metadata came back with.
pub fn found_inode(found: Result<Option<InodeRecord>, MetaStoreError>) -> (r: Result<
    InodeRecord,
    PoolError,
>)
    ensures
        match found {
            Ok(Some(rec)) => r == Ok::<InodeRecord, PoolError>(rec),
            Ok(None) => r == Err::<InodeRecord, PoolError>(PoolError::NotFound),
            Err(e) => r == Err::<InodeRecord, PoolError>(PoolError::Meta(e)),
        },
{
    match found {
        Ok(Some(rec)) => Ok(rec),
        Ok(None) => Err(PoolError::NotFound),
        Err(e) => Err(PoolError::Meta(e)),
    }
}

/// More bytes than one piece of a file can have, and the refusal.
pub open spec fn too_long(n: nat, e: PoolError) -> bool {
    &&& n > u32::MAX
    &&& e matches PoolError::Meta(MetaStoreError::InvalidOp(m)) && m@ == store::fault_text(
        OpFault::TooLarge,
    )
}

/// The length of one piece of a file, if it can have that many bytes.
pub fn piece_len(n: usize) -> (r: Result<u32, PoolError>)
    ensures
        match r {
            Ok(len) => len == n,
            Err(e) => too_long(n as nat, e),
        },
{
    if n as u64 > u32::MAX as u64 {
        return Err(
            PoolError::Meta(MetaStoreError::InvalidOp("a file is larger than can be counted")),
        );
    }
    Ok(n as u32)
}

/// Which chunk of a file an append adds, if its mode allows one.
pub fn next_chunk(rec: &InodeRecord) -> (r: Result<u64, PoolError>)
    ensures
        match r {
            Ok(n) => appendable(rec@, rec@.data->ChunkLog_0) && n
                == rec@.data->ChunkLog_0.len(),
            Err(e) => e is WrongMode && !exists|chunks: Seq<ChunkView>| #[trigger]
                appendable(rec@, chunks),
        },
{
    match rec.mode {
        InodeMode::AppendOnly | InodeMode::Converting => {},
        InodeMode::Writable => {
            return Err(PoolError::WrongMode);
        },
    }
    match &rec.data {
        DataLocator::ChunkLog(chunks) => Ok(chunks.len() as u64),
        DataLocator::Extents(_) => Err(PoolError::WrongMode),
    }
}

/// An append to a file whose record was looked up did not succeed: there is no
/// such file, its mode does not allow it, the payload is too long, too few disks
/// have room for what its scheme asks, a disk failed, or the metadata failed once
/// the payload was stored.
pub open spec fn append_failed<D: Disk>(
    before: Pool<D>,
    after: Pool<D>,
    inode: InodeId,
    payload: Seq<u8>,
    e: PoolError,
) -> bool {
    let rec = before.state().inodes[inode];
    match e {
        PoolError::NotFound => {
            &&& !before.state().inodes.dom().contains(inode)
            &&& after == before
        },
        PoolError::WrongMode => {
            &&& before.state().inodes.dom().contains(inode)
            &&& !exists|chunks: Seq<ChunkView>| #[trigger] appendable(rec, chunks)
            &&& after == before
        },
        PoolError::Unplaceable => {
            &&& before.state().inodes.dom().contains(inode)
            &&& appendable(rec, rec.data->ChunkLog_0)
            &&& payload.len() <= u32::MAX
            &&& unplaceable(
                with_room(
                    before.map().disks,
                    before.cursors(),
                    segment::record_bytes(
                        segment::record(inode, rec.data->ChunkLog_0.len() as u64, payload),
                    ).len(),
                ),
                rec.redundancy,
                hash::id_hash(inode as u128, rec.data->ChunkLog_0.len() as u64),
            )
            &&& after == before
        },
        PoolError::Io(d) => {
            &&& before.state().inodes.dom().contains(inode)
            &&& appendable(rec, rec.data->ChunkLog_0)
            &&& payload.len() <= u32::MAX
            &&& after.meta() == before.meta()
            &&& after.disk_failed(before, d@)
        },
        PoolError::Meta(_) => {
            &&& before.state().inodes.dom().contains(inode)
            &&& appendable(rec, rec.data->ChunkLog_0)
            &&& too_long(payload.len(), e) && after == before || not_grown(
                before,
                inode,
                payload,
                after,
                e,
            )
        },
        _ => false,
    }
}

/// The record of a new file.
pub open spec fn new_file(
    inode: InodeId,
    redundancy: SchemeView,
    uid: u32,
    gid: u32,
    unix_mode: u32,
    now_unix: u64,
) -> InodeView {
    InodeView {
        inode,
        mode: InodeMode::AppendOnly,
        size: 0,
        redundancy,
        data: LocatorView::ChunkLog(Seq::empty()),
        uid,
        gid,
        unix_mode,
        mtime_unix: now_unix,
    }
}

/// The state with a new file, linked into `parent`.
pub open spec fn created(
    s: MetaState,
    parent: InodeId,
    name: Seq<char>,
    rec: InodeView,
) -> MetaState {
    MetaState {
        inodes: s.inodes.insert(rec.inode, rec),
        dirs: s.dirs.insert((parent, name), rec.inode),
        next_inode: (rec.inode + 1) as u64,
    }
}

/// The bytes of a file that grew are those that it had and the new ones.
proof fn lemma_append_content<D: Disk>(
    before: Pool<D>,
    after: Pool<D>,
    inode: InodeId,
    payload: Seq<u8>,
    ids: Seq<DiskId>,
    replicas: Seq<(DiskId, u64)>,
)
    requires
        before.wf(),
        after.wf(),
        before.whole(inode),
        before.state().inodes[inode].inode == inode,
        appendable(
            before.state().inodes[inode],
            before.state().inodes[inode].data->ChunkLog_0,
        ),
        before.state().inodes[inode].data->ChunkLog_0.len() <= u32::MAX,
        has_slots(before.state().inodes[inode].redundancy),
        after.appended(before, inode, payload, ids, replicas),
        ids.no_duplicates(),
        forall|k: int| 0 <= k < ids.len() ==> 1 <= (#[trigger] ids[k]).0 <= before.cursors().len(),
    ensures
        after.whole(inode),
        before.file(inode) is Ok,
        after.file(inode) == Ok::<Seq<u8>, ReadFault>(before.file(inode)->Ok_0 + payload),
{
    broadcast use bytes::lemma_le_len;

    let rec = before.state().inodes[inode];
    let chunks = rec.data->ChunkLog_0;
    let chunk_seq = chunks.len() as u64;
    let r = segment::record(inode, chunk_seq, payload);
    let b = segment::record_bytes(r);
    let chunk = new_chunk(chunk_seq, payload, replicas);
    lemma_stored_kept(before, after, ids, b, replicas);
    lemma_stored_covered(before, after, ids, b, replicas);
    content::settled_content(before.data(), after.data(), before.cursors(), rec);
    assert(ids.len() > 0) by {
        let slots = rec.redundancy->Replicated_0;
        assert(somes(ids).len() == crate::hrw::capped(slots.len()));
    }
    assert(b.len() <= segment::room(before.cursors()[ids[0].0 - 1]));
    assert(segment::header_bytes(r).len() == 28);
    assert(b.len() == 28 + payload.len());
    content::lemma_chunk_added(after.data(), chunks, chunk);
    assert forall|k: int| 0 <= k < replicas.len() implies {
        let (id, offset) = #[trigger] replicas[k];
        1 <= id.0 <= after.cursors().len() && offset + b.len() <= after.cursors()[id.0 - 1]
    } by {
        let n = ids[k].0 - 1;
        assert(after.disk_stored(before, ids, b, n));
        assert(ids.contains(Uuid((n + 1) as u128)));
    }
    let n = ids[0].0 - 1;
    let at = SEGMENT_BASE_OFFSET + before.cursors()[n];
    assert(after.disk_stored(before, ids, b, n));
    assert(ids.contains(Uuid((n + 1) as u128)));
    assert(replicas[0] == (ids[0], before.cursors()[n]));
    assert(after.data()[n].subrange(at + 28, at + 28 + payload.len()) =~= payload);
    assert(content::piece(
        after.data(),
        replicas,
        segment::HEADER_LEN as nat,
        payload.len(),
    ) == Ok::<Seq<u8>, ReadFault>(payload));
    let now = after.state().inodes[inode];
    content::lemma_settled_grows(before.cursors(), after.cursors(), rec);
    assert(now.data == LocatorView::ChunkLog(chunks.push(chunk)));
    assert forall|i: int| 0 <= i < chunks.push(chunk).len() implies content::replicas_settled(
        after.cursors(),
        (#[trigger] chunks.push(chunk)[i]).replicas,
        segment::HEADER_LEN as nat + chunks.push(chunk)[i].len as nat,
    ) by {
        if i < chunks.len() {
            assert(chunks.push(chunk)[i] == chunks[i]);
        }
    }
    assert(content::rec_settled(after.cursors(), now));
}

/// What was stored stays so while the disks stay as they are.
proof fn lemma_stored_still<D: Disk>(
    before: Pool<D>,
    mid: Pool<D>,
    after: Pool<D>,
    ids: Seq<DiskId>,
    b: Seq<u8>,
    replicas: Seq<(DiskId, u64)>,
)
    requires
        mid.stored(before, ids, b, replicas),
        after.same_disks(mid),
    ensures
        after.stored(before, ids, b, replicas),
{
    assert forall|i: int| 0 <= i < before.cursors().len() implies #[trigger] after.disk_stored(
        before,
        ids,
        b,
        i,
    ) by {
        assert(mid.disk_stored(before, ids, b, i));
    }
}

/// The disks still reach as far as their cursors.
proof fn lemma_stored_covered<D: Disk>(
    before: Pool<D>,
    after: Pool<D>,
    ids: Seq<DiskId>,
    b: Seq<u8>,
    replicas: Seq<(DiskId, u64)>,
)
    requires
        before.wf(),
        after.wf(),
        content::covered(before.data(), before.cursors()),
        after.stored(before, ids, b, replicas),
    ensures
        content::covered(after.data(), after.cursors()),
{
    assert forall|i: int| 0 <= i < after.cursors().len() implies SEGMENT_BASE_OFFSET
        + #[trigger] after.cursors()[i] <= u64::MAX && (after.cursors()[i] > 0
        ==> after.data()[i].len() >= SEGMENT_BASE_OFFSET + after.cursors()[i]) by {
        assert(after.disk_stored(before, ids, b, i));
        assert(before.cursors()[i] <= u64::MAX);
    }
}

/// Files whose records did not change are as whole as they were, and have the
/// same bytes.
proof fn lemma_same_record<D: Disk>(before: Pool<D>, after: Pool<D>, inode: InodeId)
    requires
        before.wf(),
        after.kept(before),
        before.whole(inode),
        after.state().inodes.dom().contains(inode),
        after.state().inodes[inode] == before.state().inodes[inode],
    ensures
        after.whole(inode),
        after.file(inode) == before.file(inode),
{
    let rec = before.state().inodes[inode];
    content::settled_content(before.data(), after.data(), before.cursors(), rec);
    content::lemma_settled_grows(before.cursors(), after.cursors(), rec);
}

/// The files whose records did not change stay whole.
proof fn lemma_others_kept<D: Disk>(before: Pool<D>, after: Pool<D>, inode: InodeId)
    requires
        before.wf(),
        after.kept(before),
        after.state().inodes == before.state().inodes.insert(inode, after.state().inodes[inode]),
    ensures
        after.others_kept(before, inode),
        before.settled() && after.whole(inode) ==> after.settled(),
        before.bounded() && content::rec_bounded(after.cursors(), after.state().inodes[inode])
            ==> after.bounded(),
{
    assert forall|other: InodeId| other != inode && before.whole(other) implies after.whole(other)
        && after.file(other) == before.file(other) by {
        lemma_same_record(before, after, other);
    }
    if before.settled() && after.whole(inode) {
        assert forall|k: InodeId| #[trigger]
            after.state().inodes.dom().contains(k) implies content::rec_settled(
            after.cursors(),
            after.state().inodes[k],
        ) by {
            if k != inode {
                assert(before.whole(k));
                assert(after.whole(k));
            }
        }
    }
    if before.bounded() && content::rec_bounded(after.cursors(), after.state().inodes[inode]) {
        assert forall|k: InodeId| #[trigger]
            after.state().inodes.dom().contains(k) implies content::rec_bounded(
            after.cursors(),
            after.state().inodes[k],
        ) by {
            if k != inode {
                assert(before.state().inodes.dom().contains(k));
                content::lemma_bounded_grows(
                    before.cursors(),
                    after.cursors(),
                    after.state().inodes[k],
                );
            }
        }
    }
}

/// What was just stored ends at the cursors.
proof fn lemma_stored_bounded<D: Disk>(
    before: Pool<D>,
    after: Pool<D>,
    ids: Seq<DiskId>,
    b: Seq<u8>,
    replicas: Seq<(DiskId, u64)>,
)
    requires
        before.wf(),
        after.stored(before, ids, b, replicas),
        forall|k: int| 0 <= k < ids.len() ==> 1 <= (#[trigger] ids[k]).0 <= before.cursors().len(),
    ensures
        forall|m: (u128, int)| #[trigger]
            content::replica_ends(replicas, b.len()).contains(m) ==> 1 <= m.0
                <= after.cursors().len() && m.1 <= after.cursors()[m.0 - 1],
{
    assert forall|k: int| 0 <= k < replicas.len() implies {
        let (id, offset) = #[trigger] replicas[k];
        1 <= id.0 <= after.cursors().len() && offset + b.len() <= after.cursors()[id.0 - 1]
    } by {
        let n = ids[k].0 - 1;
        assert(after.disk_stored(before, ids, b, n));
        assert(ids.contains(Uuid((n + 1) as u128)));
    }
    assert forall|m: (u128, int)| #[trigger]
        content::replica_ends(replicas, b.len()).contains(m) implies 1 <= m.0
        <= after.cursors().len() && m.1 <= after.cursors()[m.0 - 1] by {
        content::lemma_replica_ends_below(after.cursors(), replicas, b.len(), m);
    }
}

/// An append keeps the pieces of its file below the cursors.
proof fn lemma_append_bounded<D: Disk>(
    before: Pool<D>,
    after: Pool<D>,
    inode: InodeId,
    payload: Seq<u8>,
    ids: Seq<DiskId>,
    replicas: Seq<(DiskId, u64)>,
)
    requires
        before.wf(),
        after.kept(before),
        before.state().inodes.dom().contains(inode),
        before.state().inodes[inode].inode == inode,
        content::rec_bounded(before.cursors(), before.state().inodes[inode]),
        appendable(
            before.state().inodes[inode],
            before.state().inodes[inode].data->ChunkLog_0,
        ),
        after.appended(before, inode, payload, ids, replicas),
        forall|k: int| 0 <= k < ids.len() ==> 1 <= (#[trigger] ids[k]).0 <= before.cursors().len(),
    ensures
        content::rec_bounded(after.cursors(), after.state().inodes[inode]),
{
    broadcast use bytes::lemma_le_len;

    let rec = before.state().inodes[inode];
    let chunks = rec.data->ChunkLog_0;
    let chunk_seq = chunks.len() as u64;
    let r = segment::record(inode, chunk_seq, payload);
    let b = segment::record_bytes(r);
    let chunk = new_chunk(chunk_seq, payload, replicas);
    let now = after.state().inodes[inode];
    assert(segment::header_bytes(r).len() == 28);
    assert(b.len() == segment::HEADER_LEN as nat + chunk.len as nat);
    lemma_stored_bounded(before, after, ids, b, replicas);
    content::lemma_bounded_grows(before.cursors(), after.cursors(), rec);
    assert(now.data == LocatorView::ChunkLog(chunks.push(chunk)));
    assert(chunks.push(chunk).drop_last() =~= chunks);
    assert forall|m: (u128, int)| #[trigger]
        content::rec_ends(now).contains(m) && 1 <= m.0 <= after.cursors().len() implies m.1
        <= after.cursors()[m.0 - 1] by {
        if content::chunk_ends(chunks).contains(m) {
            assert(content::rec_ends(rec).contains(m));
        } else {
            assert(content::replica_ends(replicas, b.len()).contains(m));
        }
    }
}

/// A file that was stored as one extent ends below the cursors.
proof fn lemma_whole_bounded<D: Disk>(
    before: Pool<D>,
    after: Pool<D>,
    inode: InodeId,
    c: Seq<u8>,
    ids: Seq<DiskId>,
    replicas: Seq<(DiskId, u64)>,
)
    requires
        before.wf(),
        replicas_valid(before, ids, replicas),
        after.materialized(before, inode, c, ids, replicas),
        after.state().inodes[inode].data == LocatorView::Extents(whole_extents(c, replicas)),
    ensures
        content::rec_bounded(after.cursors(), after.state().inodes[inode]),
{
    let now = after.state().inodes[inode];
    let xs = whole_extents(c, replicas);
    if c.len() > 0 {
        lemma_stored_bounded(before, after, ids, c, replicas);
        assert(xs.drop_last() =~= Seq::<ExtentView>::empty());
        assert forall|m: (u128, int)| #[trigger]
            content::rec_ends(now).contains(m) && 1 <= m.0 <= after.cursors().len() implies m.1
            <= after.cursors()[m.0 - 1] by {
            assert(content::extent_ends(xs.drop_last()).len() == 0);
            assert(content::replica_ends(replicas, c.len()).contains(m));
        }
    }
}

// ---------------------------------------------------------------------
// Writable files

impl<D: Disk> Pool<D> {
    /// Stores `bytes` as the one extent of a file. A disk that has no room for it
    /// is passed over. More bytes than an extent can say are refused.
    fn write_whole_file_extent(
        &mut self,
        inode: InodeId,
        redundancy: &RedundancyScheme,
        bytes: &Vec<u8>,
    ) -> (r: Result<Vec<Extent>, PoolError>)
        requires
            old(self).wf(),
            old(self).state().inodes[inode].redundancy == redundancy@,
        ensures
            final(self).went_on(*old(self)),
            final(self).meta() == old(self).meta(),
            match r {
                Ok(extents) => exists|ids: Seq<DiskId>, replicas: Seq<(DiskId, u64)>|
                    #[trigger] final(self).materialized(
                        *old(self),
                        inode,
                        bytes@,
                        ids,
                        replicas,
                    ) && proto::views(extents@) == whole_extents(bytes@, replicas)
                        && replicas.len() <= 16 && replicas_valid(
                        *old(self),
                        ids,
                        replicas,
                    ),
                Err(PoolError::Unplaceable) => {
                    &&& 0 < bytes@.len() <= u32::MAX
                    &&& unplaceable(
                        with_room(
                            old(self).map().disks,
                            old(self).cursors(),
                            bytes@.len(),
                        ),
                        redundancy@,
                        hash::id_hash(inode as u128, u64::MAX),
                    )
                    &&& *final(self) == *old(self)
                },
                Err(PoolError::Io(e)) => 0 < bytes@.len() <= u32::MAX && final(self).disk_failed(
                    *old(self),
                    e@,
                ),
                Err(e) => too_long(bytes@.len(), e) && *final(self) == *old(self),
            },
    {
        let ghost before = *self;
        if bytes.len() == 0 {
            let extents: Vec<Extent> = Vec::new();
            proof {
                let none_ids = Seq::<DiskId>::empty();
                let none = Seq::<(DiskId, u64)>::empty();
                assert(self.materialized(before, inode, bytes@, none_ids, none));
                assert(proto::views(extents@) =~= whole_extents(bytes@, none));
            }
            return Ok(extents);
        }
        let len: u32 = match piece_len(bytes.len()) {
            Ok(len) => len,
            Err(e) => {
                return Err(e);
            },
        };
        let key: u64 = placement::placement_key(inode, u64::MAX);
        let map = self.open_map(len as u64);
        let ids = match self.place(&map, redundancy, key) {
            Ok(ids) => ids,
            Err(_) => {
                return Err(PoolError::Unplaceable);
            },
        };
        let checksum: u32 = crc32c::checksum(bytes.as_slice());
        let replicas = match self.store_raw(&ids, bytes.as_slice()) {
            Ok(replicas) => replicas,
            Err(e) => {
                return Err(e);
            },
        };
        let ghost rs = replicas@;
        let mut extents: Vec<Extent> = Vec::new();
        extents.push(Extent { file_offset: 0, len, replicas, checksum });
        proof {
            lemma_stored_kept(before, *self, ids@, bytes@, rs);
            assert forall|k: int| 0 <= k < ids@.len() implies bytes@.len() <= segment::room(
                before.cursors()[(#[trigger] ids@[k]).0 - 1],
            ) by {
                assert(placement::accepts(map@.disks[ids@[k].0]));
            }
            assert(self.materialized(before, inode, bytes@, ids@, rs));
            assert(proto::views(extents@) =~= whole_extents(bytes@, rs));
        }
        Ok(extents)
    }

    /// Finishes the conversion of a file: its bytes are stored as one extent
    /// and the metadata points there.
    pub fn complete_convert(&mut self, inode: InodeId) -> (r: Result<(), PoolError>)
        requires
            old(self).wf(),
        ensures
            final(self).went_on(*old(self)),
            no_look_up(*old(self), *final(self), r) || converts(
                *old(self),
                *final(self),
                inode,
                r,
            ),
    {
        let found = self.meta.get_inode(inode);
        self.complete_convert_found(found, inode)
    }

    /// Finishes the conversion of the file whose look-up came to `found`.
    pub fn complete_convert_found(
        &mut self,
        found: Result<Option<InodeRecord>, MetaStoreError>,
        inode: InodeId,
    ) -> (r: Result<(), PoolError>)
        requires
            old(self).wf(),
            old(self).may_find(inode, found),
        ensures
            final(self).went_on(*old(self)),
            match found {
                Ok(_) => converts(*old(self), *final(self), inode, r),
                Err(e) => r == Err::<(), PoolError>(PoolError::Meta(e)) && *final(self)
                    == *old(self),
            },
    {
        let ghost before = *self;
        let rec = match found_inode(found) {
            Ok(rec) => rec,
            Err(e) => {
                return Err(e);
            },
        };
        match require_mode(&rec, InodeMode::Converting) {
            Ok(()) => {},
            Err(e) => {
                return Err(e);
            },
        }
        let bytes = match self.read_full_content(&rec) {
            Ok(bytes) => bytes,
            Err(e) => {
                return Err(e);
            },
        };
        let extents = match self.write_whole_file_extent(inode, &rec.redundancy, &bytes) {
            Ok(extents) => extents,
            Err(e) => {
                return Err(e);
            },
        };
        let ghost mid = *self;
        let ghost (ids, replicas) = choose|ids: Seq<DiskId>, replicas: Seq<(DiskId, u64)>|
            #[trigger] mid.materialized(before, inode, bytes@, ids, replicas) && proto::views(
                extents@,
            ) == whole_extents(bytes@, replicas) && replicas.len() <= 16 && replicas_valid(
                before,
                ids,
                replicas,
            );
        let ghost op = point_op(true, inode, bytes@, replicas);
        match self.apply_meta(MetaOp::CompleteConvert { inode, extents }) {
            Ok(()) => {
                proof {
                    lemma_materialized_still(before, mid, *self, inode, bytes@, ids, replicas);
                    if before.whole(inode) && has_slots(rec@.redundancy) {
                        content::settled_content(
                            before.data(),
                            before.data(),
                            before.cursors(),
                            rec@,
                        );
                        lemma_whole_content(before, *self, inode, bytes@, ids, replicas);
                    }
                    lemma_whole_bounded(before, *self, inode, bytes@, ids, replicas);
                    lemma_others_kept(before, *self, inode);
                }
                Ok(())
            },
            Err(e) => {
                proof {
                    lemma_materialized_still(before, mid, *self, inode, bytes@, ids, replicas);
                    assert(meta_failed(before, op, *self, e));
                }
                Err(e)
            },
        }
    }

    /// Writes `data` at `offset` of a writable file. The file grows where the
    /// write reaches past its end, with zeros in a gap.
    pub fn write(&mut self, inode: InodeId, offset: u64, data: &[u8]) -> (r: Result<(), PoolError>)
        requires
            old(self).wf(),
            offset + data@.len() <= usize::MAX,
        ensures
            final(self).went_on(*old(self)),
            no_look_up(*old(self), *final(self), r) || writes(
                *old(self),
                *final(self),
                inode,
                offset,
                data@,
                r,
            ),
    {
        let found = self.meta.get_inode(inode);
        self.write_found(found, inode, offset, data)
    }

    /// Writes to the file whose look-up came to `found`.
    pub fn write_found(
        &mut self,
        found: Result<Option<InodeRecord>, MetaStoreError>,
        inode: InodeId,
        offset: u64,
        data: &[u8],
    ) -> (r: Result<(), PoolError>)
        requires
            old(self).wf(),
            old(self).may_find(inode, found),
            offset + data@.len() <= usize::MAX,
        ensures
            final(self).went_on(*old(self)),
            match found {
                Ok(_) => writes(*old(self), *final(self), inode, offset, data@, r),
                Err(e) => r == Err::<(), PoolError>(PoolError::Meta(e)) && *final(self)
                    == *old(self),
            },
    {
        let ghost before = *self;
        let rec = match found_inode(found) {
            Ok(rec) => rec,
            Err(e) => {
                return Err(e);
            },
        };
        match require_mode(&rec, InodeMode::Writable) {
            Ok(()) => {},
            Err(e) => {
                return Err(e);
            },
        }
        let mut bytes = match self.read_full_content(&rec) {
            Ok(bytes) => bytes,
            Err(e) => {
                return Err(e);
            },
        };
        let ghost c = bytes@;
        let end: usize = offset as usize + data.len();
        if bytes.len() < end {
            bytes.resize(end, 0);
        }
        let patch_bytes: Vec<u8> = vstd::slice::slice_to_vec(data);
        patch(&mut bytes, offset as usize, &patch_bytes);
        assert(bytes@ =~= content::overwritten(c, offset as int, data@));
        let extents = match self.write_whole_file_extent(inode, &rec.redundancy, &bytes) {
            Ok(extents) => extents,
            Err(e) => {
                return Err(e);
            },
        };
        let ghost mid = *self;
        let ghost (ids, replicas) = choose|ids: Seq<DiskId>, replicas: Seq<(DiskId, u64)>|
            #[trigger] mid.materialized(before, inode, bytes@, ids, replicas) && proto::views(
                extents@,
            ) == whole_extents(bytes@, replicas) && replicas.len() <= 16 && replicas_valid(
                before,
                ids,
                replicas,
            );
        let ghost op = point_op(false, inode, bytes@, replicas);
        match self.apply_meta(MetaOp::UpdateExtents { inode, extents }) {
            Ok(()) => {
                proof {
                    lemma_materialized_still(before, mid, *self, inode, bytes@, ids, replicas);
                    if content::covered(before.data(), before.cursors()) && has_slots(
                        rec@.redundancy,
                    ) {
                        lemma_whole_end(bytes@, replicas);
                        lemma_whole_content(before, *self, inode, bytes@, ids, replicas);
                    }
                    lemma_whole_bounded(before, *self, inode, bytes@, ids, replicas);
                    lemma_others_kept(before, *self, inode);
                }
                Ok(())
            },
            Err(e) => {
                proof {
                    lemma_materialized_still(before, mid, *self, inode, bytes@, ids, replicas);
                    assert(meta_failed(before, op, *self, e));
                }
                Err(e)
            },
        }
    }
}

/// What finishing the conversion of a file whose record was looked up comes to.
pub open spec fn converts<D: Disk>(
    before: Pool<D>,
    after: Pool<D>,
    inode: InodeId,
    r: Result<(), PoolError>,
) -> bool {
    let rec = before.state().inodes[inode];
    match r {
        Ok(()) => {
            &&& was_loaded(before, inode, true)
            &&& after.converted(before, inode, before.file(inode)->Ok_0)
            &&& after.others_kept(before, inode)
            &&& before.whole(inode) && has_slots(rec.redundancy) ==> {
                &&& after.whole(inode)
                &&& after.file(inode) == before.file(inode)
            }
            &&& before.settled() && has_slots(rec.redundancy) ==> after.settled()
            &&& before.bounded() ==> after.bounded()
        },
        Err(e) => rewrite_failed(before, after, inode, true, before.file(inode)->Ok_0, e),
    }
}

/// What a write to a file whose record was looked up comes to.
pub open spec fn writes<D: Disk>(
    before: Pool<D>,
    after: Pool<D>,
    inode: InodeId,
    offset: u64,
    data: Seq<u8>,
    r: Result<(), PoolError>,
) -> bool {
    let rec = before.state().inodes[inode];
    let c = content::overwritten(before.file(inode)->Ok_0, offset as int, data);
    match r {
        Ok(()) => {
            &&& was_loaded(before, inode, false)
            &&& after.rewritten(before, inode, c)
            &&& after.others_kept(before, inode)
            &&& content::covered(before.data(), before.cursors()) && has_slots(rec.redundancy)
                ==> {
                &&& after.whole(inode)
                &&& after.file(inode) == Ok::<Seq<u8>, ReadFault>(c)
            }
            &&& before.settled() && has_slots(rec.redundancy) ==> after.settled()
            &&& before.bounded() ==> after.bounded()
        },
        Err(e) => rewrite_failed(before, after, inode, false, c, e),
    }
}

/// Whether a file has the mode that an operation takes.
pub fn require_mode(rec: &InodeRecord, mode: InodeMode) -> (r: Result<(), PoolError>)
    ensures
        match r {
            Ok(()) => rec@.mode == mode,
            Err(e) => e is WrongMode && rec@.mode != mode,
        },
{
    if rec.mode == mode {
        Ok(())
    } else {
        Err(PoolError::WrongMode)
    }
}

/// The replicas are on the disks that were chosen.
pub open spec fn replicas_valid<D: Disk>(
    before: Pool<D>,
    ids: Seq<DiskId>,
    replicas: Seq<(DiskId, u64)>,
) -> bool {
    &&& ids.len() == replicas.len()
    &&& forall|k: int| 0 <= k < ids.len() ==> 1 <= (#[trigger] ids[k]).0 <= before.cursors().len()
}

/// The operation that points a file to `c`, stored as its whole: it makes a
/// converting file writable, or it changes a writable one.
pub open spec fn point_op(
    finish: bool,
    inode: InodeId,
    c: Seq<u8>,
    replicas: Seq<(DiskId, u64)>,
) -> OpView {
    if finish {
        OpView::CompleteConvert { inode, extents: whole_extents(c, replicas) }
    } else {
        OpView::UpdateExtents { inode, extents: whole_extents(c, replicas) }
    }
}

/// `c` was stored, and that operation did not succeed.
pub open spec fn not_pointed<D: Disk>(
    before: Pool<D>,
    inode: InodeId,
    finish: bool,
    c: Seq<u8>,
    after: Pool<D>,
    e: PoolError,
) -> bool {
    exists|ids: Seq<DiskId>, replicas: Seq<(DiskId, u64)>| #[trigger]
        after.materialized(before, inode, c, ids, replicas) && meta_failed(
            before,
            point_op(finish, inode, c, replicas),
            after,
            e,
        )
}

/// The mode that a file has whose bytes are to be stored as a whole.
pub open spec fn mode_before(finish: bool) -> InodeMode {
    if finish {
        InodeMode::Converting
    } else {
        InodeMode::Writable
    }
}

/// The file is there, has the mode that the operation takes, and was read.
pub open spec fn was_loaded<D: Disk>(pool: Pool<D>, inode: InodeId, finish: bool) -> bool {
    &&& pool.state().inodes.dom().contains(inode)
    &&& pool.state().inodes[inode].mode == mode_before(finish)
    &&& pool.file(inode) is Ok
}

/// Storing `c` as the whole of a file whose record was looked up did not
/// succeed: there is no such file, it has another mode, it could not be read, `c`
/// is too long, too few disks have room for it, a disk failed, or the metadata
/// failed once `c` was stored.
pub open spec fn rewrite_failed<D: Disk>(
    before: Pool<D>,
    after: Pool<D>,
    inode: InodeId,
    finish: bool,
    c: Seq<u8>,
    e: PoolError,
) -> bool {
    let rec = before.state().inodes[inode];
    if !before.state().inodes.dom().contains(inode) {
        e is NotFound && after == before
    } else if rec.mode != mode_before(finish) {
        e is WrongMode && after == before
    } else {
        ||| after == before && reads_as(before.read_faults(), before.file(inode), Err(e))
        ||| before.file(inode) is Ok && match e {
            PoolError::Unplaceable => {
                &&& 0 < c.len() <= u32::MAX
                &&& unplaceable(
                    with_room(before.map().disks, before.cursors(), c.len()),
                    rec.redundancy,
                    hash::id_hash(inode as u128, u64::MAX),
                )
                &&& after == before
            },
            PoolError::Io(d) => {
                &&& 0 < c.len() <= u32::MAX
                &&& after.meta() == before.meta()
                &&& after.disk_failed(before, d@)
            },
            PoolError::Meta(_) => too_long(c.len(), e) && after == before || not_pointed(
                before,
                inode,
                finish,
                c,
                after,
                e,
            ),
            _ => false,
        }
    }
}

/// The one extent of a file ends where the file does.
proof fn lemma_whole_end(c: Seq<u8>, replicas: Seq<(DiskId, u64)>)
    requires
        c.len() <= u32::MAX,
    ensures
        store::extents_end(whole_extents(c, replicas)) == c.len(),
{
    if c.len() > 0 {
        assert(whole_extents(c, replicas).drop_last() =~= Seq::<ExtentView>::empty());
        assert(store::extents_end(Seq::<ExtentView>::empty()) == 0);
    }
}

proof fn lemma_materialized_still<D: Disk>(
    before: Pool<D>,
    mid: Pool<D>,
    after: Pool<D>,
    inode: InodeId,
    c: Seq<u8>,
    ids: Seq<DiskId>,
    replicas: Seq<(DiskId, u64)>,
)
    requires
        mid.materialized(before, inode, c, ids, replicas),
        after.same_disks(mid),
    ensures
        after.materialized(before, inode, c, ids, replicas),
{
    if c.len() > 0 {
        lemma_stored_still(before, mid, after, ids, c, replicas);
    }
}

/// A file that was stored as one extent has the bytes that were stored.
proof fn lemma_whole_content<D: Disk>(
    before: Pool<D>,
    after: Pool<D>,
    inode: InodeId,
    c: Seq<u8>,
    ids: Seq<DiskId>,
    replicas: Seq<(DiskId, u64)>,
)
    requires
        before.wf(),
        after.wf(),
        content::covered(before.data(), before.cursors()),
        before.state().inodes.dom().contains(inode),
        has_slots(before.state().inodes[inode].redundancy),
        c.len() <= usize::MAX,
        replicas_valid(before, ids, replicas),
        after.materialized(before, inode, c, ids, replicas),
        after.state().inodes == before.state().inodes.insert(inode, after.state().inodes[inode]),
        after.state().inodes[inode].data == LocatorView::Extents(whole_extents(c, replicas)),
        after.state().inodes[inode].size == c.len(),
    ensures
        after.whole(inode),
        after.file(inode) == Ok::<Seq<u8>, ReadFault>(c),
{
    let rec = before.state().inodes[inode];
    let now = after.state().inodes[inode];
    let xs = whole_extents(c, replicas);
    if c.len() == 0 {
        assert(after.kept(before));
        assert(c =~= bytes::zeros(0));
    } else {
        lemma_stored_kept(before, after, ids, c, replicas);
        lemma_stored_covered(before, after, ids, c, replicas);
        assert(ids.len() > 0) by {
            let slots = rec.redundancy->Replicated_0;
            assert(somes(ids).len() == crate::hrw::capped(slots.len()));
        }
        assert forall|k: int| 0 <= k < replicas.len() implies {
            let (id, offset) = #[trigger] replicas[k];
            1 <= id.0 <= after.cursors().len() && offset + c.len() <= after.cursors()[id.0 - 1]
        } by {
            let n = ids[k].0 - 1;
            assert(after.disk_stored(before, ids, c, n));
            assert(ids.contains(Uuid((n + 1) as u128)));
        }
        let n = ids[0].0 - 1;
        let at = SEGMENT_BASE_OFFSET + before.cursors()[n];
        assert(after.disk_stored(before, ids, c, n));
        assert(ids.contains(Uuid((n + 1) as u128)));
        assert(replicas[0] == (ids[0], before.cursors()[n]));
        assert(after.data()[n].subrange(at, at + c.len()) =~= c);
        assert(content::piece(after.data(), replicas, 0, c.len()) == Ok::<Seq<u8>, ReadFault>(c));
        content::lemma_whole_extent(after.data(), xs[0], c, now.size);
    }
    assert(content::rec_settled(after.cursors(), now));
}

// ---------------------------------------------------------------------
// Formatting and opening

/// The binary64 number 1 as bits.
pub const WEIGHT_ONE: u64 = 0x3ff0_0000_0000_0000;

/// The entry of the disk with this id.
pub open spec fn entry_of(id: u128, class: DiskClass) -> DiskEntry {
    DiskEntry {
        roles: DiskRoles { data: true, metadata: id <= 2 },
        state: DiskState::Active,
        class,
        weight_bits: WEIGHT_ONE,
        used_bytes: 0,
        capacity_bytes: DISK_FILE_CAPACITY_BYTES,
    }
}

/// The map of a pool whose disks have these classes.
pub open spec fn map_of(classes: Seq<DiskClass>) -> PoolView {
    PoolView {
        epoch: 0,
        disks: Map::new(
            |id: u128| 1 <= id <= classes.len(),
            |id: u128| entry_of(id, classes[id - 1]),
        ),
    }
}

/// The metadata group of a pool with `n` disks.
pub open spec fn group_of(n: nat) -> MetaGroup {
    MetaGroup {
        primary: Uuid(1),
        backup: if n >= 2 {
            Some(Uuid(2))
        } else {
            None
        },
        epoch: 0,
    }
}

/// How many disks of `n` hold the log.
pub open spec fn log_count(n: nat) -> nat {
    if n < 2 {
        n
    } else {
        2
    }
}

/// The root directory of a pool with `n` disks, made at `now_unix`.
pub open spec fn root_record(n: nat, now_unix: u64) -> InodeView {
    InodeView {
        inode: ROOT_INODE,
        mode: InodeMode::Writable,
        size: 0,
        redundancy: SchemeView::Replicated(crate::redundancy_spec::any_slots(log_count(n))),
        data: LocatorView::Extents(Seq::empty()),
        uid: 0,
        gid: 0,
        unix_mode: 0o040755,
        mtime_unix: now_unix,
    }
}

/// An empty log has room for the root directory.
proof fn lemma_root_fits(n: nat, now_unix: u64)
    ensures
        !store::log_is_full(0, OpView::CreateInode(root_record(n, now_unix))),
{
    broadcast use bytes::lemma_le_len;

    let rec = root_record(n, now_unix);
    let slots = crate::redundancy_spec::any_slots(log_count(n));
    let put = wire::put_slot();
    assert forall|payload: Seq<u8>| #[trigger]
        wire::encodes(OpView::CreateInode(rec), payload) implies wal::frame_bytes(payload).len()
        <= wal::WAL_CAPACITY_BYTES by {
        reveal_with_fuel(wire::list_bytes, 3);
        assert(wire::list_bytes(slots, put).len() <= 2);
        assert(wire::scheme_bytes(rec.redundancy).len() <= 7);
        assert(wire::locator_bytes(rec.data).len() == 5);
        assert(wal::header_bytes(payload).len() == 12);
    }
}

/// The state of a pool that was just formatted.
pub open spec fn formatted(n: nat, now_unix: u64) -> MetaState {
    MetaState {
        inodes: Map::empty().insert(ROOT_INODE, root_record(n, now_unix)),
        dirs: Map::empty(),
        next_inode: 2,
    }
}

fn make_map(classes: &Vec<DiskClass>) -> (pm: PoolMap)
    requires
        classes@.len() <= u32::MAX,
    ensures
        pm@ == map_of(classes@),
        pm@.disks.dom().len() == classes@.len(),
{
    broadcast use vstd::std_specs::hash::group_hash_axioms;

    let mut disks: HashMap<u128, DiskEntry> = HashMap::new();
    let mut i: usize = 0;
    while i < classes.len()
        invariant
            i <= classes@.len() <= u32::MAX,
            disks@.dom().finite(),
            disks@.dom().len() == i,
            forall|id: u128| #[trigger] disks@.dom().contains(id) <==> 1 <= id <= i,
            forall|id: u128|
                1 <= id <= i ==> #[trigger] disks@[id] == entry_of(id, classes@[id - 1]),
        decreases classes@.len() - i,
    {
        broadcast use vstd::std_specs::hash::group_hash_axioms;

        let id: u128 = i as u128 + 1;
        disks.insert(
            id,
            DiskEntry {
                roles: DiskRoles { data: true, metadata: id <= 2 },
                state: DiskState::Active,
                class: classes[i],
                weight_bits: WEIGHT_ONE,
                used_bytes: 0,
                capacity_bytes: DISK_FILE_CAPACITY_BYTES,
            },
        );
        i = i + 1;
    }
    let pm = PoolMap { epoch: 0, disks };
    assert(pm@.disks =~= map_of(classes@).disks);
    pm
}

fn all_hdd(n: usize) -> (classes: Vec<DiskClass>)
    ensures
        classes@ == Seq::new(n as nat, |i: int| DiskClass::Hdd),
{
    let mut classes: Vec<DiskClass> = Vec::new();
    let mut i: usize = 0;
    while i < n
        invariant
            i <= n,
            classes@.len() == i,
            forall|k: int| 0 <= k < i ==> #[trigger] classes@[k] == DiskClass::Hdd,
        decreases n - i,
    {
        classes.push(DiskClass::Hdd);
        i = i + 1;
    }
    assert(classes@ =~= Seq::new(n as nat, |i: int| DiskClass::Hdd));
    classes
}

fn any_slots(n: usize) -> (slots: Vec<ReplicaSlot>)
    ensures
        slots@ == crate::redundancy_spec::any_slots(n as nat),
{
    let mut slots: Vec<ReplicaSlot> = Vec::new();
    let mut i: usize = 0;
    while i < n
        invariant
            i <= n,
            slots@ == crate::redundancy_spec::any_slots(i as nat),
        decreases n - i,
    {
        slots.push(ReplicaSlot::AnyOfClass(None));
        i = i + 1;
        assert(slots@ =~= crate::redundancy_spec::any_slots(i as nat));
    }
    slots
}

/// What the handles hold.
pub open spec fn contents_of<D: Disk>(disks: Seq<D>) -> Seq<Seq<u8>> {
    Seq::new(disks.len(), |i: int| disks[i].contents())
}

/// What a power loss leaves of what the handles hold.
pub open spec fn durable_of<D: Disk>(disks: Seq<D>) -> Seq<Seq<u8>> {
    Seq::new(disks.len(), |i: int| disks[i].durable())
}

/// What a scan of the log finds.
pub open spec fn log_of<D: Disk>(logs: Seq<D>) -> wal::WalScanView {
    wal::scanned(logs[0].contents(), WAL_BASE_OFFSET as int)
}

/// The store goes on with the log that these handles hold: the first is the
/// primary, the second, if there is one, the backup.
pub open spec fn keeps_log<D: Disk>(meta: MetaStore<D>, logs: Seq<D>) -> bool {
    &&& meta.primary() == logs[0]
    &&& meta.backup() == (if logs.len() == 2 {
        Some(logs[1])
    } else {
        None
    })
    &&& meta.members() == group_of(logs.len())
    &&& meta.log_base() == WAL_BASE_OFFSET
    &&& meta.log_at() == log_of(logs).resume_at
}

/// The store took one operation more than what these handles held.
pub open spec fn logged_first<D: Disk>(meta: MetaStore<D>, logs: Seq<D>, op: OpView) -> bool {
    exists|opened: MetaStore<D>| keeps_log(opened, logs) && #[trigger] meta.logged(opened, op)
}

/// The metadata store of a pool.
fn open_meta<D: Disk>(logs: Vec<D>, db: redb::Database) -> (r: Result<MetaStore<D>, MetaStoreError>)
    requires
        1 <= logs@.len() <= 2,
    ensures
        match r {
            Ok(meta) => {
                &&& meta.wf()
                &&& keeps_log(meta, logs@)
                &&& store::replay(log_of(logs@).entries) == Ok::<MetaState, OpFault>(meta@)
                &&& meta.held_by_primary()
            },
            Err(MetaStoreError::InvalidOp(m)) => store::replay(log_of(logs@).entries) is Err
                && m@ == store::fault_text(store::replay(log_of(logs@).entries)->Err_0),
            Err(MetaStoreError::Io(m)) => store::unreadable(logs@[0], m@),
            Err(MetaStoreError::Redb(_)) => true,
            Err(MetaStoreError::Commit(_)) => false,
        },
{
    let mut logs = logs;
    let two: bool = logs.len() == 2;
    let backup: Option<D> = if two {
        logs.pop()
    } else {
        None
    };
    let primary: D = logs.pop().unwrap();
    let group = MetaGroup {
        primary: Uuid(1),
        backup: if two {
            Some(Uuid(2))
        } else {
            None
        },
        epoch: 0,
    };
    MetaStore::open(group, primary, backup, WAL_BASE_OFFSET, db)
}

impl<D: Disk> Pool<D> {
    /// A pool on these disks, with the map that goes with the classes and the
    /// log that the handles hold.
    pub open spec fn set_up(self, disks: Seq<D>, logs: Seq<D>, classes: Seq<DiskClass>) -> bool {
        &&& self.wf()
        &&& self.data() == contents_of(disks)
        &&& self.durable() == durable_of(disks)
        &&& self.map() == map_of(classes)
        &&& self.meta().log_base() == WAL_BASE_OFFSET
    }

    /// Makes a new pool whose disks are all of class `Hdd`.
    pub fn format(disks: Vec<D>, logs: Vec<D>, db: redb::Database, now_unix: u64) -> (r: Result<
        Self,
        PoolError,
    >)
        requires
            disks@.len() <= u32::MAX,
            logs@.len() == log_count(disks@.len()),
        ensures
            formats(
                disks@,
                logs@,
                Seq::new(disks@.len(), |i: int| DiskClass::Hdd),
                now_unix,
                r,
            ),
    {
        let classes = all_hdd(disks.len());
        Self::format_with_classes(disks, logs, &classes, db, now_unix)
    }

    /// Makes a new pool: file data starts at the beginning of every data
    /// region, and the root directory is the first entry of the log. `disks` are
    /// the data handles of all disks, `logs` the log handles of the first two,
    /// or of the only one.
    pub fn format_with_classes(
        disks: Vec<D>,
        logs: Vec<D>,
        classes: &Vec<DiskClass>,
        db: redb::Database,
        now_unix: u64,
    ) -> (r: Result<Self, PoolError>)
        requires
            disks@.len() <= u32::MAX,
            classes@.len() == disks@.len(),
            logs@.len() == log_count(disks@.len()),
        ensures
            formats(disks@, logs@, classes@, now_unix, r),
    {
        let n: usize = disks.len();
        if n == 0 {
            return Err(PoolError::NoDisks);
        }
        let ghost all = disks@;
        let mut rest = disks;
        let mut handles: Vec<DiskHandle<D>> = Vec::new();
        while rest.len() > 0
            invariant
                handles@.len() + rest@.len() == all.len(),
                forall|k: int|
                    0 <= k < handles@.len() ==> (#[trigger] handles@[k]).disk == all[k]
                        && handles@[k].cursor == 0,
                forall|k: int|
                    0 <= k < rest@.len() ==> #[trigger] rest@[k] == all[handles@.len() + k],
            decreases rest@.len(),
        {
            let disk = rest.remove(0);
            handles.push(DiskHandle { disk, cursor: 0 });
        }
        let meta = match open_meta(logs, db) {
            Ok(meta) => meta,
            Err(e) => {
                return Err(PoolError::Meta(e));
            },
        };
        let mut pool = Pool { pool_map: make_map(classes), disks: handles, meta };
        let ghost opened = pool;
        proof {
            assert(pool.data() =~= contents_of(all));
            assert(pool.durable() =~= durable_of(all));
            assert(pool.cursors() =~= Seq::new(all.len(), |i: int| 0u64));
        }
        let root = InodeRecord {
            inode: ROOT_INODE,
            mode: InodeMode::Writable,
            size: 0,
            redundancy: RedundancyScheme::Replicated(
                any_slots(
                    if n < 2 {
                        n
                    } else {
                        2
                    },
                ),
            ),
            data: DataLocator::Extents(Vec::new()),
            uid: 0,
            gid: 0,
            unix_mode: S_IFDIR + 0o755,
            mtime_unix: now_unix,
        };
        proof {
            assert(proto::views(Seq::<Extent>::empty()) =~= Seq::<ExtentView>::empty());
            assert(root@ == root_record(n as nat, now_unix));
        }
        match pool.apply_meta(MetaOp::CreateInode(root)) {
            Ok(()) => {
                proof {
                    let log = logs@[0].contents();
                    if segment::blank(log, WAL_BASE_OFFSET as int) {
                        wal::scan_of_blank_finds_nothing(log, WAL_BASE_OFFSET as int);
                        assert(opened.meta().recoverable());
                        if all_blank(logs@) && n >= 2 {
                            wal::scan_of_blank_finds_nothing(
                                logs@[1].contents(),
                                WAL_BASE_OFFSET as int,
                            );
                        }
                        assert(all_blank(logs@) ==> opened.meta().mirrored());
                        assert(pool.state().inodes =~= formatted(n as nat, now_unix).inodes);
                    }
                }
                Ok(pool)
            },
            Err(e) => {
                let ghost failure = e;
                proof {
                    let op = OpView::CreateInode(root_record(n as nat, now_unix));
                    let log = logs@[0].contents();
                    if segment::blank(log, WAL_BASE_OFFSET as int) {
                        wal::scan_of_blank_finds_nothing(log, WAL_BASE_OFFSET as int);
                        lemma_root_fits(n as nat, now_unix);
                    }
                    if let PoolError::Meta(
                        MetaStoreError::Commit(CommitError::PrimaryUnavailable(d)),
                    ) = failure {
                        let payload = choose|payload: Seq<u8>|
                            wire::encodes(op, payload) && #[trigger] store::gave_out(
                                opened.meta().primary(),
                                pool.meta().primary(),
                                (opened.meta().log_base() + opened.meta().log_at()) as u64,
                                wal::frame_bytes(payload).len(),
                                d@,
                            );
                        assert(store::gave_out(
                            logs@[0],
                            pool.meta().primary(),
                            (WAL_BASE_OFFSET + log_of(logs@).resume_at) as u64,
                            wal::frame_bytes(payload).len(),
                            d@,
                        ));
                    }
                }
                Err(e)
            },
        }
    }

    /// Opens a pool whose disks are all of class `Hdd`.
    pub fn open(disks: Vec<D>, logs: Vec<D>, db: redb::Database) -> (r: Result<Self, PoolError>)
        requires
            disks@.len() <= u32::MAX,
            logs@.len() == log_count(disks@.len()),
        ensures
            opens(disks@, logs@, Seq::new(disks@.len(), |i: int| DiskClass::Hdd), r),
    {
        let classes = all_hdd(disks.len());
        Self::open_with_classes(disks, logs, &classes, db)
    }

    /// Opens a pool: the log is replayed, and each data region is scanned for
    /// where to go on writing. A scan sees records alone, so the cursors also
    /// move past everything that a file points to.
    #[verifier::loop_isolation(false)]
    pub fn open_with_classes(
        disks: Vec<D>,
        logs: Vec<D>,
        classes: &Vec<DiskClass>,
        db: redb::Database,
    ) -> (r: Result<Self, PoolError>)
        requires
            disks@.len() <= u32::MAX,
            classes@.len() == disks@.len(),
            logs@.len() == log_count(disks@.len()),
        ensures
            opens(disks@, logs@, classes@, r),
    {
        let n: usize = disks.len();
        if n == 0 {
            return Err(PoolError::NoDisks);
        }
        let ghost all = disks@;
        let mut cursors: Vec<u64> = Vec::new();
        let mut i: usize = 0;
        while i < n
            invariant
                i <= n,
                cursors@.len() == i,
                forall|k: int|
                    0 <= k < i ==> #[trigger] cursors@[k] == resume_of(all[k].contents())
                        && cursors@[k] <= content::REACH,
            decreases n - i,
        {
            let scan = match segment::scan(&disks[i], SEGMENT_BASE_OFFSET) {
                Ok(scan) => scan,
                Err(e) => {
                    assert(all[i as int].read_faults().contains(e@));
                    return Err(PoolError::Io(e));
                },
            };
            proof {
                crate::framing::lemma_scan_bounds(
                    segment::format(),
                    all[i as int].contents(),
                    SEGMENT_BASE_OFFSET as int,
                    0,
                );
            }
            cursors.push(scan.resume_at);
            i = i + 1;
        }
        let ghost found = cursors@;
        let meta = match open_meta(logs, db) {
            Ok(meta) => meta,
            Err(e) => {
                return Err(PoolError::Meta(e));
            },
        };
        let list = match meta.inodes() {
            Ok(list) => list,
            Err(e) => {
                return Err(PoolError::Meta(e));
            },
        };
        content::raise_above(&mut cursors, &list);
        proof {
            content::lemma_listed_ends(meta@.inodes, proto::views(list@));
        }
        let mut rest = disks;
        let mut handles: Vec<DiskHandle<D>> = Vec::new();
        while rest.len() > 0
            invariant
                handles@.len() + rest@.len() == all.len(),
                cursors@.len() == all.len(),
                forall|k: int|
                    0 <= k < handles@.len() ==> (#[trigger] handles@[k]).disk == all[k]
                        && handles@[k].cursor == cursors@[k],
                forall|k: int|
                    0 <= k < rest@.len() ==> #[trigger] rest@[k] == all[handles@.len() + k],
            decreases rest@.len(),
        {
            let at: usize = handles.len();
            let disk = rest.remove(0);
            handles.push(DiskHandle { disk, cursor: cursors[at] });
        }
        let pool = Pool { pool_map: make_map(classes), disks: handles, meta };
        proof {
            assert(pool.data() =~= contents_of(all));
            assert(pool.durable() =~= durable_of(all));
            assert forall|i: int| 0 <= i < pool.cursors().len() implies SEGMENT_BASE_OFFSET
                + #[trigger] pool.cursors()[i] <= u64::MAX && content::raised_to(
                resume_of(all[i].contents()) as int,
                pool.cursors()[i] as int,
                i + 1,
                content::all_ends(pool.state().inodes),
            ) by {
                assert(found[i] == resume_of(all[i].contents()));
                assert(content::raised_to(
                    found[i] as int,
                    cursors@[i] as int,
                    i + 1,
                    content::all_ends(meta@.inodes),
                ));
            }
        }
        Ok(pool)
    }
}

/// Where a scan of a disk's data region says to go on.
pub open spec fn resume_of(contents: Seq<u8>) -> nat {
    segment::scanned(contents, SEGMENT_BASE_OFFSET as int).resume_at
}

/// No handle holds anything of a log.
pub open spec fn all_blank<D: Disk>(logs: Seq<D>) -> bool {
    forall|i: int|
        0 <= i < logs.len() ==> segment::blank(
            (#[trigger] logs[i]).contents(),
            WAL_BASE_OFFSET as int,
        )
}

/// What formatting comes to. On a blank log it gives a pool with the root
/// directory and nothing else; an old log is replayed first.
pub open spec fn formats<D: Disk>(
    disks: Seq<D>,
    logs: Seq<D>,
    classes: Seq<DiskClass>,
    now_unix: u64,
    r: Result<Pool<D>, PoolError>,
) -> bool {
    match r {
        Ok(pool) => {
            &&& disks.len() > 0
            &&& pool.set_up(disks, logs, classes)
            &&& forall|i: int| 0 <= i < pool.cursors().len() ==> #[trigger] pool.cursors()[i] == 0
            &&& logged_first(
                pool.meta(),
                logs,
                OpView::CreateInode(root_record(disks.len(), now_unix)),
            )
            &&& store::replay(log_of(logs).entries) matches Ok(s) && store::apply_op(
                s,
                OpView::CreateInode(root_record(disks.len(), now_unix)),
            ) == Ok::<MetaState, OpFault>(pool.state())
            &&& pool.meta().held_by_primary()
            &&& contents_of(disks) == durable_of(disks) ==> safe(pool)
            &&& segment::blank(logs[0].contents(), WAL_BASE_OFFSET as int) ==> {
                &&& pool.state() == formatted(disks.len(), now_unix)
                &&& pool.meta().recoverable()
                &&& all_blank(logs) ==> pool.meta().mirrored()
                &&& pool.settled()
                &&& pool.bounded()
            }
        },
        Err(PoolError::NoDisks) => disks.len() == 0,
        Err(PoolError::Meta(MetaStoreError::Commit(CommitError::PrimaryUnavailable(e)))) => {
            &&& disks.len() > 0
            &&& store::replay(log_of(logs).entries) is Ok
            &&& primary_gave_out(
                logs,
                OpView::CreateInode(root_record(disks.len(), now_unix)),
                e@,
            )
        },
        Err(PoolError::Meta(MetaStoreError::InvalidOp(m))) => disks.len() > 0 && match store::replay(
            log_of(logs).entries,
        ) {
            Err(f) => m@ == store::fault_text(f),
            Ok(_) => {
                &&& m@ == store::fault_text(OpFault::LogFull)
                &&& !segment::blank(logs[0].contents(), WAL_BASE_OFFSET as int)
                &&& store::log_is_full(
                    log_of(logs).resume_at as int,
                    OpView::CreateInode(root_record(disks.len(), now_unix)),
                )
            },
        },
        Err(PoolError::Meta(e)) => disks.len() > 0 && meta_not_opened(logs, e),
        Err(_) => false,
    }
}

/// The log could not be opened: it cannot be read or does not replay, or the
/// local database failed.
pub open spec fn meta_not_opened<D: Disk>(logs: Seq<D>, e: MetaStoreError) -> bool {
    match e {
        MetaStoreError::InvalidOp(m) => store::replay(log_of(logs).entries) matches Err(f) && m@
            == store::fault_text(f),
        MetaStoreError::Io(m) => store::unreadable(logs[0], m@),
        MetaStoreError::Redb(_) => true,
        MetaStoreError::Commit(_) => false,
    }
}

/// The disk that the log is written to first reported the failure `e` when `op`
/// was logged there.
pub open spec fn primary_gave_out<D: Disk>(logs: Seq<D>, op: OpView, e: DiskErrorView) -> bool {
    exists|after: D, payload: Seq<u8>|
        wire::encodes(op, payload) && #[trigger] store::gave_out(
            logs[0],
            after,
            (WAL_BASE_OFFSET + log_of(logs).resume_at) as u64,
            wal::frame_bytes(payload).len(),
            e,
        )
}

/// What opening comes to. Writing goes on behind the last record that a scan of
/// the data region finds, and behind every piece of a file, which may not be a
/// record.
pub open spec fn opens<D: Disk>(
    disks: Seq<D>,
    logs: Seq<D>,
    classes: Seq<DiskClass>,
    r: Result<Pool<D>, PoolError>,
) -> bool {
    match r {
        Ok(pool) => {
            &&& disks.len() > 0
            &&& pool.set_up(disks, logs, classes)
            &&& forall|i: int|
                0 <= i < pool.cursors().len() ==> content::raised_to(
                    resume_of(disks[i].contents()) as int,
                    #[trigger] pool.cursors()[i] as int,
                    i + 1,
                    content::all_ends(pool.state().inodes),
                )
            &&& store::replay(log_of(logs).entries) == Ok::<MetaState, OpFault>(pool.state())
            &&& keeps_log(pool.meta(), logs)
            &&& pool.meta().held_by_primary()
        },
        Err(PoolError::NoDisks) => disks.len() == 0,
        Err(PoolError::Io(e)) => {
            &&& e.kind != DiskErrorKind::UnexpectedEof
            &&& exists|i: int|
                0 <= i < disks.len() && (#[trigger] disks[i]).read_faults().contains(e@)
        },
        Err(PoolError::Meta(e)) => disks.len() > 0 && meta_not_opened(logs, e),
        Err(_) => false,
    }
}

// ---------------------------------------------------------------------
// Laws

/// An operation that failed and left the metadata as it was lost nothing:
/// every file that was whole is so still and has the bytes that it had.
pub proof fn a_failed_operation_loses_nothing<D: Disk>(
    before: Pool<D>,
    after: Pool<D>,
    inode: InodeId,
)
    requires
        before.wf(),
        before.whole(inode),
        after.went_on(before),
        after.state().inodes == before.state().inodes,
    ensures
        after.whole(inode),
        after.file(inode) == before.file(inode),
        before.settled() ==> after.settled(),
        before.bounded() ==> after.bounded(),
{
    lemma_same_record(before, after, inode);
    content::lemma_settled_bounded(after.cursors(), after.state().inodes[inode]);
    assert(after.state().inodes =~= before.state().inodes.insert(
        inode,
        after.state().inodes[inode],
    ));
    lemma_others_kept(before, after, inode);
}

/// A change of the metadata alone that touches no file's bytes keeps every
/// file as it was, and whole where it was, and so does a new file.
pub proof fn metadata_changes_keep_files<D: Disk>(
    before: Pool<D>,
    after: Pool<D>,
    op: OpView,
    inode: InodeId,
)
    requires
        before.wf(),
        after.same_disks(before),
        store::apply_op(before.state(), op) == Ok::<MetaState, OpFault>(after.state()),
        match op {
            OpView::Link { .. } | OpView::Unlink { .. } => true,
            OpView::BeginConvert { .. } | OpView::SetRedundancyScheme { .. } => true,
            OpView::CreateInode(rec) => rec.inode != inode,
            _ => false,
        },
        before.state().inodes.dom().contains(inode),
    ensures
        after.file(inode) == before.file(inode),
        before.whole(inode) ==> after.whole(inode),
        before.settled() && (op matches OpView::CreateInode(rec) ==> content::rec_settled(
            before.cursors(),
            rec,
        )) ==> after.settled(),
        before.bounded() && (op matches OpView::CreateInode(rec) ==> content::rec_bounded(
            before.cursors(),
            rec,
        )) ==> after.bounded(),
{
    before.meta().records_are_under_their_own_number();
    assert forall|k: InodeId| #[trigger]
        after.state().inodes.dom().contains(k) && !(op matches OpView::CreateInode(rec)
            && rec.inode == k) implies {
        &&& before.state().inodes.dom().contains(k)
        &&& after.state().inodes[k].data == before.state().inodes[k].data
        &&& after.state().inodes[k].size == before.state().inodes[k].size
    } by {}
    assert(after.state().inodes.dom().contains(inode));
    if before.bounded() && (op matches OpView::CreateInode(rec) ==> content::rec_bounded(
        before.cursors(),
        rec,
    )) {
        assert forall|k: InodeId| #[trigger]
            after.state().inodes.dom().contains(k) implies content::rec_bounded(
            after.cursors(),
            after.state().inodes[k],
        ) by {
            if !(op matches OpView::CreateInode(rec) && rec.inode == k) {
                let was = before.state().inodes[k];
                assert(content::rec_ends(after.state().inodes[k]) == content::rec_ends(was));
                assert(content::rec_bounded(before.cursors(), was));
            }
        }
    }
}

/// Everything that was acknowledged is on stable storage: the data of every
/// disk, and the log on the primary.
pub open spec fn safe<D: Disk>(pool: Pool<D>) -> bool {
    &&& pool.durable() == pool.data()
    &&& pool.meta().primary().durable() == pool.meta().primary().contents()
}

/// What is acknowledged is durable: an append that succeeds leaves nothing
/// that a power loss could take back.
pub proof fn an_acknowledged_append_is_durable<D: Disk>(
    before: Pool<D>,
    after: Pool<D>,
    inode: InodeId,
    payload: Seq<u8>,
)
    requires
        before.wf(),
        safe(before),
        after.wf(),
        after.grown(before, inode, payload),
    ensures
        safe(after),
{
    let (ids, replicas) = choose|ids: Seq<DiskId>, replicas: Seq<(DiskId, u64)>| #[trigger]
        after.appended(before, inode, payload, ids, replicas);
    let seq_no = before.state().inodes[inode].data->ChunkLog_0.len() as u64;
    let b = segment::record_bytes(segment::record(inode, seq_no, payload));
    lemma_stored_durable(before, after, ids, b, replicas);
}

/// What is acknowledged is durable: so is a write or a conversion that
/// succeeds.
pub proof fn an_acknowledged_rewrite_is_durable<D: Disk>(
    before: Pool<D>,
    after: Pool<D>,
    inode: InodeId,
    c: Seq<u8>,
)
    requires
        before.wf(),
        safe(before),
        after.wf(),
        after.rewritten(before, inode, c) || after.converted(before, inode, c),
    ensures
        safe(after),
{
    let (ids, replicas) = if after.rewritten(before, inode, c) {
        choose|ids: Seq<DiskId>, replicas: Seq<(DiskId, u64)>|
            #[trigger] after.materialized(before, inode, c, ids, replicas) && after.stepped(
                before,
                OpView::UpdateExtents { inode, extents: whole_extents(c, replicas) },
            )
    } else {
        choose|ids: Seq<DiskId>, replicas: Seq<(DiskId, u64)>|
            #[trigger] after.materialized(before, inode, c, ids, replicas) && after.stepped(
                before,
                OpView::CompleteConvert { inode, extents: whole_extents(c, replicas) },
            )
    };
    if c.len() > 0 {
        lemma_stored_durable(before, after, ids, c, replicas);
    }
}

/// What is acknowledged is durable: so is a change of the metadata alone.
pub proof fn an_acknowledged_change_is_durable<D: Disk>(
    before: Pool<D>,
    after: Pool<D>,
    op: OpView,
)
    requires
        safe(before),
        after.same_disks(before),
        after.stepped(before, op),
    ensures
        safe(after),
{
}

proof fn lemma_stored_durable<D: Disk>(
    before: Pool<D>,
    after: Pool<D>,
    ids: Seq<DiskId>,
    b: Seq<u8>,
    replicas: Seq<(DiskId, u64)>,
)
    requires
        before.wf(),
        after.wf(),
        before.durable() == before.data(),
        after.stored(before, ids, b, replicas),
    ensures
        after.durable() == after.data(),
{
    assert forall|i: int| 0 <= i < after.data().len() implies after.durable()[i]
        == after.data()[i] by {
        assert(after.disk_stored(before, ids, b, i));
    }
    assert(after.durable() =~= after.data());
}

/// A pool that is opened on what a power loss left has every file and every
/// directory entry of the one that was lost, and the same bytes in the files.
pub proof fn a_power_loss_loses_nothing_acknowledged<D: Disk>(
    lost: Pool<D>,
    disks: Seq<D>,
    logs: Seq<D>,
    classes: Seq<DiskClass>,
    opened: Pool<D>,
)
    requires
        safe(lost),
        lost.meta().recoverable(),
        lost.meta().log_base() == WAL_BASE_OFFSET,
        contents_of(disks) == lost.durable(),
        logs.len() > 0,
        logs[0].contents() == lost.meta().primary().durable(),
        opens(disks, logs, classes, Ok(opened)),
    ensures
        opened.state().inodes == lost.state().inodes,
        opened.state().dirs == lost.state().dirs,
        forall|inode: InodeId|
            lost.state().inodes.dom().contains(inode) ==> #[trigger] opened.file(inode)
                == lost.file(inode),
{
}

/// Replicas that may be anywhere find their disks as long as enough disks can
/// take one.
pub proof fn enough_disks_are_enough(
    m: Map<u128, DiskEntry>,
    slots: Seq<ReplicaSlot>,
    key: u64,
    able: Seq<u128>,
)
    requires
        forall|k: int|
            0 <= k < slots.len() ==> #[trigger] slots[k] == ReplicaSlot::AnyOfClass(None),
        able.no_duplicates(),
        slots.len() <= able.len(),
        forall|i: int|
            0 <= i < able.len() ==> placement::may_take(m, data_disks(m), #[trigger] able[i]),
    ensures
        !unplaceable(m, SchemeView::Replicated(slots), key),
{
    if some_unplaced(m, slots, key) {
        let placed = choose|placed: Seq<Option<DiskId>>|
            placed.contains(None) && #[trigger] placement::is_placed(
                m,
                data_disks(m),
                key,
                slots,
                placed,
            );
        let k = placed.index_of(None);
        let taken = placed.take(k);
        assert(placement::is_pick(m, data_disks(m), key, slots[k], taken, placed[k]));
        let wanted = able.map_values(|id: u128| Some(Uuid(id)));
        assert forall|i: int| 0 <= i < wanted.len() implies taken.contains(
            #[trigger] wanted[i],
        ) by {
            assert(placement::may_take(m, data_disks(m), able[i]));
            assert(!placement::may_fill(m, data_disks(m), slots[k], taken, able[i]));
        }
        assert(wanted.no_duplicates()) by {
            assert forall|i: int, j: int|
                0 <= i < wanted.len() && 0 <= j < wanted.len() && i != j implies wanted[i]
                != wanted[j] by {
                assert(able[i] != able[j]);
            }
        }
        wanted.unique_seq_to_set();
        taken.lemma_cardinality_of_set();
        vstd::set_lib::lemma_len_subset(wanted.to_set(), taken.to_set());
    }
}

/// The disks can each take `n` bytes more.
pub open spec fn all_able<D: Disk>(pool: Pool<D>, able: Seq<u128>, n: int) -> bool {
    let m = pool.map().disks;
    &&& able.no_duplicates()
    &&& forall|i: int|
        0 <= i < able.len() ==> placement::may_take(m, data_disks(m), #[trigger] able[i]) && n
            <= segment::room(pool.cursors()[able[i] - 1])
}

proof fn lemma_able_are_enough<D: Disk>(
    pool: Pool<D>,
    slots: Seq<ReplicaSlot>,
    key: u64,
    n: nat,
    able: Seq<u128>,
)
    requires
        unplaceable(
            with_room(pool.map().disks, pool.cursors(), n),
            SchemeView::Replicated(slots),
            key,
        ),
        forall|k: int|
            0 <= k < slots.len() ==> #[trigger] slots[k] == ReplicaSlot::AnyOfClass(None),
        all_able(pool, able, n as int),
    ensures
        able.len() < slots.len(),
{
    let m = pool.map().disks;
    let open = with_room(m, pool.cursors(), n);
    if able.len() >= slots.len() {
        assert forall|i: int| 0 <= i < able.len() implies placement::may_take(
            open,
            data_disks(open),
            #[trigger] able[i],
        ) by {
            assert(placement::may_take(m, data_disks(m), able[i]));
        }
        enough_disks_are_enough(open, slots, key, able);
    }
}

/// An append to a file whose replicas may be anywhere is refused for want of
/// space only where fewer disks than replicas can take it.
pub proof fn no_space_means_too_few_disks<D: Disk>(
    before: Pool<D>,
    after: Pool<D>,
    inode: InodeId,
    payload: Seq<u8>,
    slots: Seq<ReplicaSlot>,
    able: Seq<u128>,
)
    requires
        append_failed(before, after, inode, payload, PoolError::Unplaceable),
        before.state().inodes[inode].redundancy == SchemeView::Replicated(slots),
        forall|k: int|
            0 <= k < slots.len() ==> #[trigger] slots[k] == ReplicaSlot::AnyOfClass(None),
        all_able(before, able, segment::HEADER_LEN + payload.len()),
    ensures
        able.len() < slots.len(),
{
    broadcast use bytes::lemma_le_len;

    let seq_no = before.state().inodes[inode].data->ChunkLog_0.len() as u64;
    let b = segment::record_bytes(segment::record(inode, seq_no, payload));
    assert(b.len() == segment::HEADER_LEN + payload.len());
    let key = hash::id_hash(inode as u128, seq_no);
    lemma_able_are_enough(before, slots, key, b.len(), able);
}

/// A write to a file whose replicas may be anywhere, or its conversion, is
/// refused for want of space only where fewer disks than replicas can take it.
pub proof fn no_space_to_rewrite_means_too_few_disks<D: Disk>(
    before: Pool<D>,
    after: Pool<D>,
    inode: InodeId,
    finish: bool,
    c: Seq<u8>,
    slots: Seq<ReplicaSlot>,
    able: Seq<u128>,
)
    requires
        before.file(inode) is Ok,
        rewrite_failed(before, after, inode, finish, c, PoolError::Unplaceable),
        before.state().inodes[inode].redundancy == SchemeView::Replicated(slots),
        forall|k: int|
            0 <= k < slots.len() ==> #[trigger] slots[k] == ReplicaSlot::AnyOfClass(None),
        all_able(before, able, c.len() as int),
    ensures
        able.len() < slots.len(),
{
    let key = hash::id_hash(inode as u128, u64::MAX);
    lemma_able_are_enough(before, slots, key, c.len(), able);
}

/// No disk was written to past the end of its data region.
pub open spec fn within_regions<D: Disk>(pool: Pool<D>) -> bool {
    forall|i: int|
        0 <= i < pool.cursors().len() ==> #[trigger] pool.cursors()[i]
            <= segment::SEGMENT_SIZE_BYTES
}

/// Nothing that succeeds writes past the end of a data region.
pub proof fn nothing_passes_the_end_of_a_region<D: Disk>(
    before: Pool<D>,
    after: Pool<D>,
    inode: InodeId,
    p: Seq<u8>,
)
    requires
        before.wf(),
        within_regions(before),
        after.grown(before, inode, p) || after.rewritten(before, inode, p) || after.converted(
            before,
            inode,
            p,
        ),
    ensures
        within_regions(after),
{
    if after.grown(before, inode, p) {
        let (ids, replicas) = choose|ids: Seq<DiskId>, replicas: Seq<(DiskId, u64)>| #[trigger]
            after.appended(before, inode, p, ids, replicas);
        let seq_no = before.state().inodes[inode].data->ChunkLog_0.len() as u64;
        let b = segment::record_bytes(segment::record(inode, seq_no, p));
        lemma_stored_within(before, after, ids, b, replicas);
    } else {
        let (ids, replicas) = choose|ids: Seq<DiskId>, replicas: Seq<(DiskId, u64)>| #[trigger]
            after.materialized(before, inode, p, ids, replicas);
        if p.len() > 0 {
            lemma_stored_within(before, after, ids, p, replicas);
        }
    }
}

proof fn lemma_stored_within<D: Disk>(
    before: Pool<D>,
    after: Pool<D>,
    ids: Seq<DiskId>,
    b: Seq<u8>,
    replicas: Seq<(DiskId, u64)>,
)
    requires
        before.wf(),
        within_regions(before),
        after.stored(before, ids, b, replicas),
        forall|k: int|
            0 <= k < ids.len() ==> b.len() <= segment::room(
                before.cursors()[(#[trigger] ids[k]).0 - 1],
            ),
    ensures
        within_regions(after),
{
    assert forall|i: int| 0 <= i < after.cursors().len() implies #[trigger] after.cursors()[i]
        <= segment::SEGMENT_SIZE_BYTES by {
        assert(after.disk_stored(before, ids, b, i));
        assert(before.cursors()[i] <= segment::SEGMENT_SIZE_BYTES);
        let id = Uuid((i + 1) as u128);
        if ids.contains(id) {
            let k = ids.index_of(id);
            assert(b.len() <= segment::room(before.cursors()[ids[k].0 - 1]));
        }
    }
}

/// Every replica of an appended payload holds it, and no two are on one disk.
pub proof fn every_replica_holds_the_payload<D: Disk>(
    before: Pool<D>,
    after: Pool<D>,
    inode: InodeId,
    payload: Seq<u8>,
    ids: Seq<DiskId>,
    replicas: Seq<(DiskId, u64)>,
    k: int,
)
    requires
        before.wf(),
        after.wf(),
        after.appended(before, inode, payload, ids, replicas),
        0 <= k < replicas.len(),
    ensures
        1 <= replicas[k].0.0 <= after.data().len(),
        ({
            let at = SEGMENT_BASE_OFFSET + replicas[k].1 + segment::HEADER_LEN;
            let held = after.data()[replicas[k].0.0 - 1];
            at + payload.len() <= held.len() && held.subrange(at, at + payload.len()) == payload
        }),
        forall|j: int|
            0 <= j < replicas.len() && j != k ==> (#[trigger] replicas[j]).0 != replicas[k].0,
{
    broadcast use bytes::lemma_le_len;

    let rec = before.state().inodes[inode];
    let seq_no = rec.data->ChunkLog_0.len() as u64;
    let key = hash::id_hash(inode as u128, seq_no);
    let r = segment::record(inode, seq_no, payload);
    let b = segment::record_bytes(r);
    let m = with_room(before.map().disks, before.cursors(), b.len());
    let slots = rec.redundancy->Replicated_0;
    let placed = somes(ids);
    assert(placement::is_pick(
        m,
        data_disks(m),
        key,
        slots[k],
        placed.take(k),
        placed[k],
    ));
    assert(m.dom().contains(ids[k].0));
    let n = ids[k].0 - 1;
    assert(after.disk_stored(before, ids, b, n));
    assert(ids.contains(Uuid((n + 1) as u128)));
    assert(replicas[k] == (ids[k], before.cursors()[n]));
    assert(segment::header_bytes(r).len() == 28);
    let at = SEGMENT_BASE_OFFSET + before.cursors()[n] + 28;
    assert(after.data()[n].subrange(at, at + payload.len()) =~= payload);
    assert forall|j: int| 0 <= j < replicas.len() && j != k implies (#[trigger] replicas[j]).0
        != replicas[k].0 by {
        assert(replicas[j].0 == ids[j]);
        assert(placed[j] == Some(ids[j]) && placed[k] == Some(ids[k]));
        if j < k {
            placement::placed_distinct(m, data_disks(m), key, slots, placed, j, k);
        } else {
            placement::placed_distinct(m, data_disks(m), key, slots, placed, k, j);
        }
    }
}

/// In a pool of whole files, the pieces are below the cursors.
pub proof fn whole_files_are_bounded<D: Disk>(pool: Pool<D>)
    requires
        pool.settled(),
    ensures
        pool.bounded(),
{
    assert forall|k: InodeId| #[trigger]
        pool.state().inodes.dom().contains(k) implies content::rec_bounded(
        pool.cursors(),
        pool.state().inodes[k],
    ) by {
        content::lemma_settled_bounded(pool.cursors(), pool.state().inodes[k]);
    }
}

/// A pool that is opened on what a power loss left goes on safely: every file
/// that was whole is so, converted or not, and lies below the cursors, so that
/// nothing that is written from then on touches it.
pub proof fn reopening_keeps_every_file_whole<D: Disk>(
    lost: Pool<D>,
    disks: Seq<D>,
    logs: Seq<D>,
    classes: Seq<DiskClass>,
    opened: Pool<D>,
)
    requires
        lost.wf(),
        safe(lost),
        content::covered(lost.data(), lost.cursors()),
        lost.bounded(),
        lost.meta().recoverable(),
        lost.meta().log_base() == WAL_BASE_OFFSET,
        contents_of(disks) == lost.durable(),
        logs.len() > 0,
        logs[0].contents() == lost.meta().primary().durable(),
        opens(disks, logs, classes, Ok(opened)),
    ensures
        content::covered(opened.data(), opened.cursors()),
        opened.bounded(),
        forall|inode: InodeId| lost.whole(inode) ==> #[trigger] opened.whole(inode),
        lost.settled() ==> opened.settled(),
        opened.state().inodes == lost.state().inodes,
        opened.state().dirs == lost.state().dirs,
        forall|inode: InodeId|
            lost.state().inodes.dom().contains(inode) ==> #[trigger] opened.file(inode)
                == lost.file(inode),
{
    a_power_loss_loses_nothing_acknowledged(lost, disks, logs, classes, opened);
    let ends = content::all_ends(opened.state().inodes);
    assert forall|i: int| 0 <= i < opened.cursors().len() implies SEGMENT_BASE_OFFSET
        + #[trigger] opened.cursors()[i] <= u64::MAX && (opened.cursors()[i] > 0
        ==> opened.data()[i].len() >= SEGMENT_BASE_OFFSET + opened.cursors()[i]) by {
        lemma_cursor_not_above(lost, disks, logs, classes, opened, i);
        assert(opened.data()[i] == lost.data()[i]);
        crate::framing::lemma_scan_bounds(
            segment::format(),
            lost.data()[i],
            SEGMENT_BASE_OFFSET as int,
            0,
        );
        assert(SEGMENT_BASE_OFFSET + lost.cursors()[i] <= u64::MAX);
    }
    assert forall|k: InodeId| #[trigger]
        opened.state().inodes.dom().contains(k) implies content::rec_bounded(
        opened.cursors(),
        opened.state().inodes[k],
    ) by {
        let rec = lost.state().inodes[k];
        assert forall|m: (u128, int)| #[trigger]
            content::rec_ends(rec).contains(m) && 1 <= m.0 <= opened.cursors().len() implies m.1
            <= opened.cursors()[m.0 - 1] by {
            let i = m.0 - 1;
            assert(ends.contains(((i + 1) as u128, m.1)));
            assert(SEGMENT_BASE_OFFSET + lost.cursors()[i] <= u64::MAX);
            assert(content::raised_to(
                resume_of(disks[i].contents()) as int,
                opened.cursors()[i] as int,
                i + 1,
                ends,
            ));
        }
    }
    assert forall|k: InodeId| lost.whole(k) implies #[trigger] opened.whole(k) by {
        let rec = lost.state().inodes[k];
        assert forall|i: int| 0 <= i < lost.cursors().len() implies #[trigger] lost.cursors()[i]
            <= content::REACH by {}
        assert forall|i: int, end: int|
            0 <= i < opened.cursors().len() && #[trigger] content::rec_ends(rec).contains(
                ((i + 1) as u128, end),
            ) && end <= content::REACH implies end <= opened.cursors()[i] by {
            assert(ends.contains(((i + 1) as u128, end)));
            assert(content::raised_to(
                resume_of(disks[i].contents()) as int,
                opened.cursors()[i] as int,
                i + 1,
                ends,
            ));
        }
        content::lemma_settled_below(lost.cursors(), opened.cursors(), rec);
    }
    if lost.settled() {
        assert forall|k: InodeId| #[trigger]
            opened.state().inodes.dom().contains(k) implies content::rec_settled(
            opened.cursors(),
            opened.state().inodes[k],
        ) by {
            assert(lost.whole(k));
            assert(opened.whole(k));
        }
    }
}

/// On every disk a scan of the data region ends at the cursor, and there is
/// nothing behind it.
pub open spec fn steady<D: Disk>(pool: Pool<D>) -> bool {
    forall|i: int|
        0 <= i < pool.cursors().len() ==> #[trigger] pool.cursors()[i] == resume_of(
            pool.data()[i],
        ) && segment::blank(pool.data()[i], SEGMENT_BASE_OFFSET + pool.cursors()[i])
}

/// As long as files are only appended to, a pool that is opened again goes on
/// writing exactly where the last one stopped.
pub proof fn appending_keeps_the_pool_steady<D: Disk>(
    before: Pool<D>,
    after: Pool<D>,
    inode: InodeId,
    payload: Seq<u8>,
)
    requires
        before.wf(),
        after.wf(),
        steady(before),
        after.grown(before, inode, payload),
    ensures
        steady(after),
{
    broadcast use bytes::lemma_le_len;

    let (ids, replicas) = choose|ids: Seq<DiskId>, replicas: Seq<(DiskId, u64)>| #[trigger]
        after.appended(before, inode, payload, ids, replicas);
    let seq_no = before.state().inodes[inode].data->ChunkLog_0.len() as u64;
    let r = segment::record(inode, seq_no, payload);
    let b = segment::record_bytes(r);
    assert(segment::header_bytes(r).len() == 28);
    assert forall|i: int| 0 <= i < after.cursors().len() implies #[trigger] after.cursors()[i]
        == resume_of(after.data()[i]) && segment::blank(
        after.data()[i],
        SEGMENT_BASE_OFFSET + after.cursors()[i],
    ) by {
        assert(after.disk_stored(before, ids, b, i));
        assert(before.cursors()[i] == resume_of(before.data()[i]));
        if ids.contains(Uuid((i + 1) as u128)) {
            let k = ids.index_of(Uuid((i + 1) as u128));
            assert(b.len() <= segment::room(before.cursors()[ids[k].0 - 1]));
            segment::scan_finds_what_was_appended(
                before.data()[i],
                SEGMENT_BASE_OFFSET as int,
                r,
            );
        }
    }
}

/// A pool in which files were only appended to goes on after a power loss as if
/// nothing had happened: every file that was whole is so, and the next byte goes
/// where it would have gone.
pub proof fn a_steady_pool_goes_on_after_a_power_loss<D: Disk>(
    lost: Pool<D>,
    disks: Seq<D>,
    logs: Seq<D>,
    classes: Seq<DiskClass>,
    opened: Pool<D>,
)
    requires
        lost.wf(),
        safe(lost),
        steady(lost),
        content::covered(lost.data(), lost.cursors()),
        lost.bounded(),
        lost.meta().recoverable(),
        lost.meta().log_base() == WAL_BASE_OFFSET,
        contents_of(disks) == lost.durable(),
        logs.len() > 0,
        logs[0].contents() == lost.meta().primary().durable(),
        opens(disks, logs, classes, Ok(opened)),
    ensures
        opened.cursors() == lost.cursors(),
        forall|inode: InodeId| lost.whole(inode) ==> #[trigger] opened.whole(inode),
        lost.settled() ==> opened.settled(),
        steady(opened),
{
    assert forall|i: int| 0 <= i < lost.cursors().len() implies opened.cursors()[i]
        == lost.cursors()[i] by {
        assert(contents_of(disks)[i] == disks[i].contents());
        assert(lost.cursors()[i] == resume_of(lost.data()[i]));
        lemma_cursor_not_above(lost, disks, logs, classes, opened, i);
    }
    assert(opened.cursors() =~= lost.cursors());
    reopening_keeps_every_file_whole(lost, disks, logs, classes, opened);
}

/// A cursor of a pool that is opened again is behind the last record that a
/// scan finds, or at the end of a piece of a file.
proof fn lemma_cursor_not_above<D: Disk>(
    lost: Pool<D>,
    disks: Seq<D>,
    logs: Seq<D>,
    classes: Seq<DiskClass>,
    opened: Pool<D>,
    i: int,
)
    requires
        lost.wf(),
        lost.bounded(),
        opened.state().inodes == lost.state().inodes,
        contents_of(disks) == lost.data(),
        opens(disks, logs, classes, Ok(opened)),
        0 <= i < lost.cursors().len(),
    ensures
        opened.cursors()[i] == resume_of(lost.data()[i]) || opened.cursors()[i]
            <= lost.cursors()[i],
        opened.cursors()[i] >= resume_of(lost.data()[i]),
{
    let ends = content::all_ends(opened.state().inodes);
    let at = opened.cursors()[i] as int;
    assert(contents_of(disks)[i] == disks[i].contents());
    assert(content::raised_to(resume_of(disks[i].contents()) as int, at, i + 1, ends));
    if at != resume_of(lost.data()[i]) {
        let m = ((i + 1) as u128, at);
        let k = choose|k: InodeId| #[trigger]
            opened.state().inodes.dom().contains(k) && content::rec_ends(
                opened.state().inodes[k],
            ).contains(m);
        assert(lost.state().inodes.dom().contains(k));
        assert(content::rec_ends(lost.state().inodes[k]).contains(m));
    }
}

// ---------------------------------------------------------------------
// What the disks of a pool are for

/// In a pool that was made or opened on these disks, every disk may take file
/// data: it has the data role, is active, has space, and has its own class and
/// the same weight as the others. The first two also hold the log.
pub proof fn every_disk_takes_data<D: Disk>(
    disks: Seq<D>,
    logs: Seq<D>,
    classes: Seq<DiskClass>,
    now_unix: u64,
    pool: Pool<D>,
    id: u128,
)
    requires
        classes.len() == disks.len(),
        formats(disks, logs, classes, now_unix, Ok(pool)) || opens(
            disks,
            logs,
            classes,
            Ok(pool),
        ),
    ensures
        pool.map().disks.dom().contains(id) <==> 1 <= id <= disks.len(),
        1 <= id <= disks.len() ==> {
            let e = pool.map().disks[id];
            &&& e.roles.data
            &&& e.roles.metadata == (id <= 2)
            &&& e.state == DiskState::Active
            &&& e.used_bytes == 0 && e.capacity_bytes == 0x1400_1000
            &&& e.class == classes[id - 1]
            &&& placement::weight_milli(e.weight_bits) == 1000
            &&& data_disks(pool.map().disks).contains(id)
            &&& placement::may_take(pool.map().disks, data_disks(pool.map().disks), id)
        },
{
    vstd::arithmetic::power2::lemma2_to64_rest();
    placement::whole_weights_are_exact(0x3ff0_0000_0000_0000, 1);
}

/// A disk counts as full for what it has no room for, and only then.
pub proof fn full_disks_are_those_without_room(
    m: Map<u128, DiskEntry>,
    cursors: Seq<u64>,
    n: nat,
    id: u128,
)
    requires
        m.dom().contains(id),
        0 < n,
    ensures
        with_room(m, cursors, n).dom() == m.dom(),
        ({
            let e = with_room(m, cursors, n)[id];
            &&& placement::accepts(e) <==> placement::accepts(m[id]) && cursors[id - 1] + n
                <= 0x1000_0000
            &&& e.roles == m[id].roles && e.class == m[id].class && e.state == m[id].state
            &&& e.weight_bits == m[id].weight_bits
        }),
{
    assert(with_room(m, cursors, n).dom() =~= m.dom());
}

/// In a pool that was made or opened on these disks, replicas that may be
/// anywhere find their disks as long as as many disks have room, whichever they
/// are.
pub proof fn room_on_any_disks_is_enough<D: Disk>(
    disks: Seq<D>,
    logs: Seq<D>,
    classes: Seq<DiskClass>,
    now_unix: u64,
    made: Pool<D>,
    pool: Pool<D>,
    slots: Seq<ReplicaSlot>,
    key: u64,
    n: nat,
    able: Seq<u128>,
)
    requires
        classes.len() == disks.len(),
        formats(disks, logs, classes, now_unix, Ok(made)) || opens(
            disks,
            logs,
            classes,
            Ok(made),
        ),
        pool.map() == made.map(),
        0 < n,
        forall|k: int|
            0 <= k < slots.len() ==> #[trigger] slots[k] == ReplicaSlot::AnyOfClass(None),
        able.no_duplicates(),
        slots.len() <= able.len(),
        forall|i: int|
            0 <= i < able.len() ==> 1 <= #[trigger] able[i] <= disks.len() && pool.cursors()[able[i]
                - 1] + n <= 0x1000_0000,
    ensures
        !unplaceable(
            with_room(pool.map().disks, pool.cursors(), n),
            SchemeView::Replicated(slots),
            key,
        ),
{
    let m = pool.map().disks;
    let open = with_room(m, pool.cursors(), n);
    assert forall|i: int| 0 <= i < able.len() implies placement::may_take(
        open,
        data_disks(open),
        #[trigger] able[i],
    ) by {
        every_disk_takes_data(disks, logs, classes, now_unix, made, able[i]);
        full_disks_are_those_without_room(m, pool.cursors(), n, able[i]);
    }
    enough_disks_are_enough(open, slots, key, able);
}

proof fn lemma_pin_is_placed(m: Map<u128, DiskEntry>, id: u128, key: u64, ids: Seq<DiskId>)
    requires
        placement::may_take(m, data_disks(m), id),
    ensures
        ({
            let pinned = SchemeView::Replicated(seq![ReplicaSlot::Pinned(Uuid(id))]);
            &&& !unplaceable(m, pinned, key)
            &&& all_placed(m, pinned, key, ids) ==> ids == seq![Uuid(id)]
        }),
{
    let slots = seq![ReplicaSlot::Pinned(Uuid(id))];
    let pinned = SchemeView::Replicated(slots);
    let keep = data_disks(m);
    if some_unplaced(m, slots, key) {
        let placed = choose|placed: Seq<Option<DiskId>>|
            placed.contains(None) && #[trigger] placement::is_placed(
                m,
                data_disks(m),
                key,
                slots,
                placed,
            );
        placement::each_slot_gets_its_best_disk(m, keep, key, slots, placed, 0, id);
        assert(placed[placed.index_of(None)] is None);
    }
    if all_placed(m, pinned, key, ids) {
        placement::each_slot_gets_its_best_disk(m, keep, key, slots, somes(ids), 0, id);
        assert(somes(ids).len() == ids.len());
        assert(somes(ids)[0] == Some(ids[0]));
        assert(ids =~= seq![Uuid(id)]);
    }
}

/// In such a pool every disk can be pinned: a replica that is pinned to a disk
/// with room goes there.
pub proof fn every_disk_can_be_pinned<D: Disk>(
    disks: Seq<D>,
    logs: Seq<D>,
    classes: Seq<DiskClass>,
    now_unix: u64,
    made: Pool<D>,
    pool: Pool<D>,
    id: u128,
    key: u64,
    n: nat,
    ids: Seq<DiskId>,
)
    requires
        classes.len() == disks.len(),
        formats(disks, logs, classes, now_unix, Ok(made)) || opens(
            disks,
            logs,
            classes,
            Ok(made),
        ),
        pool.map() == made.map(),
        0 < n,
        1 <= id <= disks.len(),
        pool.cursors()[id - 1] + n <= 0x1000_0000,
    ensures
        ({
            let open = with_room(pool.map().disks, pool.cursors(), n);
            let pinned = SchemeView::Replicated(seq![ReplicaSlot::Pinned(Uuid(id))]);
            &&& !unplaceable(open, pinned, key)
            &&& all_placed(open, pinned, key, ids) ==> ids == seq![Uuid(id)]
        }),
{
    let m = pool.map().disks;
    every_disk_takes_data(disks, logs, classes, now_unix, made, id);
    full_disks_are_those_without_room(m, pool.cursors(), n, id);
    lemma_pin_is_placed(with_room(m, pool.cursors(), n), id, key, ids);
}

/// A slot is refused exactly where no disk that takes data meets it.
proof fn lemma_slot_is_met(m: Map<u128, DiskEntry>, slot: ReplicaSlot, id: u128)
    ensures
        placement::may_take(m, data_disks(m), id) && placement::allows(slot, id, m[id])
            ==> !unsatisfiable(m, SchemeView::Replicated(seq![slot])),
        (forall|x: u128|
            !(#[trigger] placement::may_take(m, data_disks(m), x) && placement::allows(
                slot,
                x,
                m[x],
            ))) ==> unsatisfiable(m, SchemeView::Replicated(seq![slot])),
{
    let slots = seq![slot];
    assert(slots[0] == slot);
    if placement::may_take(m, data_disks(m), id) && placement::allows(slot, id, m[id]) {
        assert(!slot_unfit(m, slot));
    }
    if forall|x: u128|
        !(#[trigger] placement::may_take(m, data_disks(m), x) && placement::allows(
            slot,
            x,
            m[x],
        )) {
        let scheme = SchemeView::Replicated(slots);
        assert(slot_unfit(m, scheme->Replicated_0[0]));
        assert(unsatisfiable(m, scheme));
    }
}

/// In such a pool a policy can be set that pins to a disk of the pool, asks for a
/// class that a disk of the pool has, or asks for any disk. One that asks for what
/// the pool does not have cannot, wherever in the policy it stands.
pub proof fn policies_ask_for_what_the_pool_has<D: Disk>(
    disks: Seq<D>,
    logs: Seq<D>,
    classes: Seq<DiskClass>,
    now_unix: u64,
    pool: Pool<D>,
    id: u128,
    class: DiskClass,
)
    requires
        disks.len() > 0,
        classes.len() == disks.len(),
        formats(disks, logs, classes, now_unix, Ok(pool)) || opens(
            disks,
            logs,
            classes,
            Ok(pool),
        ),
    ensures
        ({
            let refused = |slot: ReplicaSlot|
                unsatisfiable(pool.map().disks, SchemeView::Replicated(seq![slot]));
            &&& refused(ReplicaSlot::Pinned(Uuid(id))) <==> !(1 <= id <= disks.len())
            &&& refused(ReplicaSlot::AnyOfClass(Some(class))) <==> !classes.contains(class)
            &&& !refused(ReplicaSlot::AnyOfClass(None))
        }),
{
    let m = pool.map().disks;
    let pin = ReplicaSlot::Pinned(Uuid(id));
    let of_class = ReplicaSlot::AnyOfClass(Some(class));
    every_disk_takes_data(disks, logs, classes, now_unix, pool, id);
    lemma_slot_is_met(m, pin, id);
    every_disk_takes_data(disks, logs, classes, now_unix, pool, 1);
    lemma_slot_is_met(m, ReplicaSlot::AnyOfClass(None), 1);
    if classes.contains(class) {
        let x = (classes.index_of(class) + 1) as u128;
        every_disk_takes_data(disks, logs, classes, now_unix, pool, x);
        lemma_slot_is_met(m, of_class, x);
    } else {
        assert forall|x: u128| !(#[trigger] placement::may_take(m, data_disks(m), x)
            && placement::allows(of_class, x, m[x])) by {
            every_disk_takes_data(disks, logs, classes, now_unix, pool, x);
            if placement::may_take(m, data_disks(m), x) {
                assert(classes[x - 1] == m[x].class);
            }
        }
        lemma_slot_is_met(m, of_class, 1);
    }
}

/// A policy is refused exactly where one of its slots alone is.
pub proof fn a_policy_is_refused_for_one_of_its_slots(
    m: Map<u128, DiskEntry>,
    slots: Seq<ReplicaSlot>,
)
    ensures
        unsatisfiable(m, SchemeView::Replicated(slots)) <==> exists|k: int|
            0 <= k < slots.len() && unsatisfiable(
                m,
                SchemeView::Replicated(seq![#[trigger] slots[k]]),
            ),
{
    if unsatisfiable(m, SchemeView::Replicated(slots)) {
        let k = choose|k: int| 0 <= k < slots.len() && slot_unfit(m, #[trigger] slots[k]);
        lemma_slot_is_met(m, slots[k], 0);
        assert(unsatisfiable(m, SchemeView::Replicated(seq![slots[k]])));
    }
    if exists|k: int|
        0 <= k < slots.len() && unsatisfiable(
            m,
            SchemeView::Replicated(seq![#[trigger] slots[k]]),
        ) {
        let k = choose|k: int|
            0 <= k < slots.len() && unsatisfiable(
                m,
                SchemeView::Replicated(seq![#[trigger] slots[k]]),
            );
        let one = seq![slots[k]];
        let j = choose|j: int| 0 <= j < one.len() && slot_unfit(m, #[trigger] one[j]);
        assert(one[j] == slots[k]);
        let scheme = SchemeView::Replicated(slots);
        assert(slot_unfit(m, scheme->Replicated_0[k]));
        assert(unsatisfiable(m, scheme));
    }
}

/// A pool that was made on blank disks has the root directory and nothing else:
/// the next file is number 2, every disk is empty, and the log is on the first
/// two disks, or on the only one.
pub proof fn a_new_pool_is_empty<D: Disk>(
    disks: Seq<D>,
    logs: Seq<D>,
    classes: Seq<DiskClass>,
    now_unix: u64,
    pool: Pool<D>,
    other: InodeId,
)
    requires
        classes.len() == disks.len(),
        logs.len() > 0,
        segment::blank(logs[0].contents(), WAL_BASE_OFFSET as int),
        formats(disks, logs, classes, now_unix, Ok(pool)),
    ensures
        pool.state().inodes.dom().contains(other) <==> other == 1,
        pool.state().dirs.dom() == Set::<(InodeId, Seq<char>)>::empty(),
        pool.state().next_inode == 2,
        ({
            let root = pool.state().inodes[1];
            &&& root.inode == 1 && root.size == 0 && root.unix_mode == 0o040755
            &&& root.uid == 0 && root.gid == 0 && root.mtime_unix == now_unix
            &&& root.mode == InodeMode::Writable
        }),
        pool.whole(1),
        forall|i: int| 0 <= i < disks.len() ==> #[trigger] pool.cursors()[i] == 0,
        pool.meta().log_base() == 4096,
        pool.meta().recoverable(),
{
    assert(pool.state().inodes.dom().contains(1));
}

/// A pool that is opened goes on with the log of the first disk, and mirrors it
/// on the second where there is one.
pub proof fn an_opened_pool_goes_on_with_its_log<D: Disk>(
    disks: Seq<D>,
    logs: Seq<D>,
    classes: Seq<DiskClass>,
    pool: Pool<D>,
)
    requires
        logs.len() == log_count(disks.len()),
        opens(disks, logs, classes, Ok(pool)),
    ensures
        disks.len() >= 2 ==> logs.len() == 2,
        disks.len() == 1 ==> logs.len() == 1,
        pool.meta().primary() == logs[0],
        logs.len() == 2 ==> pool.meta().backup() == Some(logs[1]) && pool.meta().members().backup
            == Some(Uuid(2)),
        logs.len() == 1 ==> pool.meta().backup() is None && pool.meta().members().backup is None,
        pool.meta().members().primary == Uuid(1),
        pool.meta().log_base() == 4096,
        store::replay(wal::scanned(logs[0].contents(), 4096).entries) == Ok::<
            MetaState,
            OpFault,
        >(pool.state()),
        pool.meta().log_at() == wal::scanned(logs[0].contents(), 4096).resume_at,
        forall|i: int|
            0 <= i < pool.cursors().len() ==> #[trigger] pool.cursors()[i] >= segment::scanned(
                disks[i].contents(),
                0x400_1000,
            ).resume_at,
{
    assert forall|i: int| 0 <= i < pool.cursors().len() implies #[trigger] pool.cursors()[i]
        >= segment::scanned(disks[i].contents(), 0x400_1000).resume_at by {
        assert(content::raised_to(
            resume_of(disks[i].contents()) as int,
            pool.cursors()[i] as int,
            i + 1,
            content::all_ends(pool.state().inodes),
        ));
    }
}

/// Opening is owed where the disks can be read and the log replays: nothing but
/// the local database can then stand in the way.
pub proof fn opening_is_owed<D: Disk>(
    disks: Seq<D>,
    logs: Seq<D>,
    classes: Seq<DiskClass>,
    e: PoolError,
)
    requires
        disks.len() > 0,
        opens(disks, logs, classes, Err(e)),
        forall|i: int, d: DiskErrorView|
            0 <= i < disks.len() ==> !(#[trigger] disks[i].read_faults().contains(d)),
        forall|d: DiskErrorView| !(#[trigger] logs[0].read_faults().contains(d)),
        store::replay(wal::scanned(logs[0].contents(), 4096).entries) is Ok,
    ensures
        e matches PoolError::Meta(MetaStoreError::Redb(_)),
{
}

/// Making a pool on a blank log is owed where the log can be read: only the
/// primary, by a failure that it reports, or the local database can stand in the
/// way.
pub proof fn formatting_is_owed<D: Disk>(
    disks: Seq<D>,
    logs: Seq<D>,
    classes: Seq<DiskClass>,
    now_unix: u64,
    e: PoolError,
)
    requires
        disks.len() > 0,
        logs.len() > 0,
        formats(disks, logs, classes, now_unix, Err(e)),
        forall|d: DiskErrorView| !(#[trigger] logs[0].read_faults().contains(d)),
        segment::blank(logs[0].contents(), WAL_BASE_OFFSET as int),
    ensures
        match e {
            PoolError::Meta(MetaStoreError::Redb(_)) => true,
            PoolError::Meta(MetaStoreError::Commit(CommitError::PrimaryUnavailable(d))) =>
                exists|after: D| #[trigger] after.faults() == logs[0].faults().push(d@),
            _ => false,
        },
{
    wal::scan_of_blank_finds_nothing(logs[0].contents(), WAL_BASE_OFFSET as int);
    store::a_log_starts_from_nothing();
    if let PoolError::Meta(MetaStoreError::Commit(CommitError::PrimaryUnavailable(d))) = e {
        let op = OpView::CreateInode(root_record(disks.len(), now_unix));
        let (after, payload) = choose|after: D, payload: Seq<u8>|
            wire::encodes(op, payload) && #[trigger] store::gave_out(
                logs[0],
                after,
                (WAL_BASE_OFFSET + log_of(logs).resume_at) as u64,
                wal::frame_bytes(payload).len(),
                d@,
            );
        assert(after.faults() == logs[0].faults().push(d@));
    }
}

// ---------------------------------------------------------------------
// What appends, writes, conversions and reads do

/// An append puts its bytes behind those of the file, which grows by as many, and
/// leaves every other file and all directory entries as they were.
pub proof fn an_append_lengthens_the_file<D: Disk>(
    before: Pool<D>,
    after: Pool<D>,
    inode: InodeId,
    payload: Seq<u8>,
    slots: Seq<ReplicaSlot>,
    other: InodeId,
)
    requires
        before.wf(),
        appends(before, after, inode, payload, Ok(())),
        before.whole(inode),
        before.state().inodes[inode].redundancy == SchemeView::Replicated(slots),
        slots.len() > 0,
    ensures
        after.whole(inode),
        before.file(inode) matches Ok(c) && after.file(inode) == Ok::<Seq<u8>, ReadFault>(
            c + payload,
        ) && after.state().inodes[inode].size == c.len() + payload.len(),
        after.state().inodes[inode].mode == before.state().inodes[inode].mode,
        after.state().inodes[inode].redundancy == before.state().inodes[inode].redundancy,
        after.state().dirs == before.state().dirs,
        after.state().inodes.dom() == before.state().inodes.dom(),
        other != inode && before.state().inodes.dom().contains(other)
            ==> after.state().inodes[other] == before.state().inodes[other],
        other != inode && before.whole(other) ==> after.whole(other) && after.file(other)
            == before.file(other),
{
    before.meta().records_are_under_their_own_number();
    content::settled_content(
        before.data(),
        before.data(),
        before.cursors(),
        before.state().inodes[inode],
    );
    content::settled_content(
        after.data(),
        after.data(),
        after.cursors(),
        after.state().inodes[inode],
    );
    let (ids, replicas) = choose|ids: Seq<DiskId>, replicas: Seq<(DiskId, u64)>| #[trigger]
        after.appended(before, inode, payload, ids, replicas);
    assert(after.state().inodes.dom() =~= before.state().inodes.dom());
}

/// A write to a writable file changes exactly the bytes that it names; the file is
/// as long as it was or as far as the write reaches, with zeros in a gap, and
/// every other file is as it was.
pub proof fn a_write_changes_the_file<D: Disk>(
    before: Pool<D>,
    after: Pool<D>,
    inode: InodeId,
    offset: u64,
    data: Seq<u8>,
    slots: Seq<ReplicaSlot>,
    other: InodeId,
)
    requires
        before.wf(),
        writes(before, after, inode, offset, data, Ok(())),
        content::covered(before.data(), before.cursors()),
        before.state().inodes[inode].redundancy == SchemeView::Replicated(slots),
        slots.len() > 0,
    ensures
        after.whole(inode),
        before.state().inodes[inode].mode == InodeMode::Writable,
        after.state().inodes[inode].mode == InodeMode::Writable,
        ({
            let was = before.file(inode)->Ok_0;
            let now = after.file(inode)->Ok_0;
            &&& before.file(inode) is Ok && after.file(inode) is Ok
            &&& now.len() == after.state().inodes[inode].size
            &&& offset + data.len() <= was.len() ==> now.len() == was.len()
            &&& offset + data.len() > was.len() ==> now.len() == offset + data.len()
            &&& forall|i: int| 0 <= i < data.len() ==> #[trigger] now[offset + i] == data[i]
            &&& forall|i: int|
                0 <= i < was.len() && (i < offset || offset + data.len() <= i)
                    ==> #[trigger] now[i] == was[i]
            &&& forall|i: int| was.len() <= i < offset ==> #[trigger] now[i] == 0
        }),
        after.state().dirs == before.state().dirs,
        other != inode && before.state().inodes.dom().contains(other)
            ==> after.state().inodes[other] == before.state().inodes[other],
        other != inode && before.whole(other) ==> after.whole(other) && after.file(other)
            == before.file(other),
{
    before.meta().records_are_under_their_own_number();
    content::a_write_changes_what_it_names(before.file(inode)->Ok_0, offset as nat, data);
    content::settled_content(
        after.data(),
        after.data(),
        after.cursors(),
        after.state().inodes[inode],
    );
}

/// A conversion that is finished makes the file writable and keeps its bytes and
/// its size, and every other file is as it was.
pub proof fn a_conversion_keeps_the_bytes<D: Disk>(
    before: Pool<D>,
    after: Pool<D>,
    inode: InodeId,
    slots: Seq<ReplicaSlot>,
    other: InodeId,
)
    requires
        before.wf(),
        converts(before, after, inode, Ok(())),
        before.whole(inode),
        before.state().inodes[inode].redundancy == SchemeView::Replicated(slots),
        slots.len() > 0,
    ensures
        after.whole(inode),
        before.state().inodes[inode].mode == InodeMode::Converting,
        after.state().inodes[inode].mode == InodeMode::Writable,
        before.file(inode) is Ok,
        after.file(inode) == before.file(inode),
        after.state().inodes[inode].size == before.state().inodes[inode].size,
        after.state().dirs == before.state().dirs,
        other != inode && before.state().inodes.dom().contains(other)
            ==> after.state().inodes[other] == before.state().inodes[other],
        other != inode && before.whole(other) ==> after.whole(other) && after.file(other)
            == before.file(other),
{
    before.meta().records_are_under_their_own_number();
}

/// The disk meets what the slot asks for.
pub open spec fn meets(slot: ReplicaSlot, id: u128, e: DiskEntry) -> bool {
    match slot {
        ReplicaSlot::AnyOfClass(None) => true,
        ReplicaSlot::AnyOfClass(Some(class)) => e.class == class,
        ReplicaSlot::Pinned(pin) => pin.0 == id,
    }
}

/// The disks that were chosen for `n` bytes: one for each slot, all different,
/// each with the data role, active, with room, and as the slot asks. No other such
/// disk scores higher for the key, but for those that earlier slots got.
pub open spec fn well_chosen<D: Disk>(
    pool: Pool<D>,
    slots: Seq<ReplicaSlot>,
    key: u64,
    n: nat,
    replicas: Seq<(DiskId, u64)>,
    k: int,
    other: u128,
) -> bool {
    let m = pool.map().disks;
    let able = |id: u128|
        1 <= id <= pool.cursors().len() && m[id].roles.data && m[id].state == DiskState::Active
            && m[id].used_bytes < m[id].capacity_bytes && pool.cursors()[id - 1] + n
            <= 0x1000_0000;
    let id = replicas[k].0.0;
    &&& able(id)
    &&& meets(slots[k], id, m[id])
    &&& replicas[k].1 == pool.cursors()[id - 1]
    &&& forall|j: int| 0 <= j < replicas.len() && j != k ==> (#[trigger] replicas[j]).0.0 != id
    &&& able(other) && meets(slots[k], other, m[other]) && (forall|j: int|
        0 <= j < k ==> (#[trigger] replicas[j]).0.0 != other) ==> placement::score_in(m, key, id)
        >= placement::score_in(m, key, other)
}

proof fn lemma_well_chosen<D: Disk>(
    before: Pool<D>,
    slots: Seq<ReplicaSlot>,
    key: u64,
    n: nat,
    ids: Seq<DiskId>,
    replicas: Seq<(DiskId, u64)>,
    k: int,
    other: u128,
)
    requires
        before.wf(),
        0 < n,
        slots.len() <= 16,
        all_placed(
            with_room(before.map().disks, before.cursors(), n),
            SchemeView::Replicated(slots),
            key,
            ids,
        ),
        replicas.len() == ids.len(),
        forall|j: int|
            0 <= j < ids.len() ==> #[trigger] replicas[j] == (
                ids[j],
                before.cursors()[ids[j].0 - 1],
            ),
        0 <= k < slots.len(),
    ensures
        replicas.len() == slots.len(),
        well_chosen(before, slots, key, n, replicas, k, other),
{
    let m = before.map().disks;
    let open = with_room(m, before.cursors(), n);
    let keep = data_disks(open);
    let placed = somes(ids);
    assert(placement::is_pick(open, keep, key, slots[k], placed.take(k), placed[k]));
    let id = ids[k].0;
    assert(placement::may_fill(open, keep, slots[k], placed.take(k), id));
    assert(m.dom().contains(id));
    full_disks_are_those_without_room(m, before.cursors(), n, id);
    assert forall|j: int| 0 <= j < replicas.len() && j != k implies (#[trigger] replicas[j]).0.0
        != id by {
        assert(replicas[j].0 == ids[j]);
        assert(placed[j] == Some(ids[j]) && placed[k] == Some(ids[k]));
        if j < k {
            placement::placed_distinct(open, keep, key, slots, placed, j, k);
        } else {
            placement::placed_distinct(open, keep, key, slots, placed, k, j);
        }
    }
    if 1 <= other <= before.cursors().len() && m[other].roles.data && m[other].state
        == DiskState::Active && m[other].used_bytes < m[other].capacity_bytes
        && before.cursors()[other - 1] + n <= 0x1000_0000 && meets(slots[k], other, m[other]) && (
    forall|j: int| 0 <= j < k ==> (#[trigger] replicas[j]).0.0 != other) {
        assert(m.dom().contains(other));
        full_disks_are_those_without_room(m, before.cursors(), n, other);
        assert forall|j: int| 0 <= j < k implies #[trigger] placed[j] != Some(Uuid(other)) by {
            assert(replicas[j].0 == ids[j]);
        }
        placement::each_slot_gets_its_best_disk(open, keep, key, slots, placed, k, other);
        assert(placement::score_in(open, key, id) == placement::score_in(m, key, id));
        assert(placement::score_in(open, key, other) == placement::score_in(m, key, other));
    }
}

/// An append stores its bytes once for each slot of the file's policy, on disks
/// that are well chosen, and every copy is durable before the file points there.
pub proof fn an_append_stores_one_copy_per_slot<D: Disk>(
    before: Pool<D>,
    after: Pool<D>,
    inode: InodeId,
    payload: Seq<u8>,
    slots: Seq<ReplicaSlot>,
    k: int,
    other: u128,
)
    requires
        before.wf(),
        after.wf(),
        appends(before, after, inode, payload, Ok(())),
        before.state().inodes[inode].redundancy == SchemeView::Replicated(slots),
        0 <= k < slots.len() <= 16,
    ensures
        ({
            let chunks = before.state().inodes[inode].data->ChunkLog_0;
            let c = after.state().inodes[inode].data->ChunkLog_0.last();
            let id = c.replicas[k].0.0;
            let at = 0x400_1000 + c.replicas[k].1 + 28;
            &&& after.state().inodes[inode].data == LocatorView::ChunkLog(chunks.push(c))
            &&& c.replicas.len() == slots.len()
            &&& c.len == payload.len()
            &&& c.chunk_seq == chunks.len()
            &&& c.checksum == crc32c::crc(payload)
            &&& well_chosen(
                before,
                slots,
                hash::id_hash(inode as u128, chunks.len() as u64),
                28 + payload.len(),
                c.replicas,
                k,
                other,
            )
            &&& after.data()[id - 1].len() >= at + payload.len()
            &&& after.data()[id - 1].subrange(at, at + payload.len()) == payload
            &&& after.durable()[id - 1] == after.data()[id - 1]
        }),
{
    broadcast use bytes::lemma_le_len;

    before.meta().records_are_under_their_own_number();
    let (ids, replicas) = choose|ids: Seq<DiskId>, replicas: Seq<(DiskId, u64)>| #[trigger]
        after.appended(before, inode, payload, ids, replicas);
    let chunks = before.state().inodes[inode].data->ChunkLog_0;
    let seq_no = chunks.len() as u64;
    let b = segment::record_bytes(segment::record(inode, seq_no, payload));
    assert(b.len() == 28 + payload.len());
    let chunk = new_chunk(seq_no, payload, replicas);
    assert(after.state().inodes[inode].data == LocatorView::ChunkLog(chunks.push(chunk)));
    assert(chunks.push(chunk).last() == chunk);
    lemma_well_chosen(
        before,
        slots,
        hash::id_hash(inode as u128, seq_no),
        28 + payload.len(),
        ids,
        replicas,
        k,
        other,
    );
    every_replica_holds_the_payload(before, after, inode, payload, ids, replicas, k);
    let n = ids[k].0 - 1;
    assert(replicas[k].0 == ids[k]);
    assert(after.disk_stored(before, ids, b, n));
    assert(ids.contains(Uuid((n + 1) as u128)));
}

/// A write or a conversion stores the whole file once for each slot of its policy,
/// on disks that are well chosen, and every copy is durable before the file points
/// there. An empty file is stored nowhere.
#[verifier::rlimit(40)]
pub proof fn a_rewrite_stores_one_copy_per_slot<D: Disk>(
    before: Pool<D>,
    after: Pool<D>,
    inode: InodeId,
    c: Seq<u8>,
    slots: Seq<ReplicaSlot>,
    k: int,
    other: u128,
)
    requires
        before.wf(),
        after.wf(),
        before.state().inodes.dom().contains(inode),
        after.rewritten(before, inode, c) || after.converted(before, inode, c),
        before.state().inodes[inode].redundancy == SchemeView::Replicated(slots),
        0 <= k < slots.len() <= 16,
    ensures
        c.len() == 0 ==> after.state().inodes[inode].data == LocatorView::Extents(Seq::empty()),
        c.len() > 0 ==> {
            let xs = after.state().inodes[inode].data->Extents_0;
            let x = xs[0];
            let id = x.replicas[k].0.0;
            let at = 0x400_1000 + x.replicas[k].1;
            &&& after.state().inodes[inode].data is Extents
            &&& xs.len() == 1
            &&& x.file_offset == 0
            &&& x.replicas.len() == slots.len()
            &&& x.len == c.len()
            &&& x.checksum == crc32c::crc(c)
            &&& well_chosen(
                before,
                slots,
                hash::id_hash(inode as u128, 0xffff_ffff_ffff_ffff),
                c.len(),
                x.replicas,
                k,
                other,
            )
            &&& after.data()[id - 1].len() >= at + c.len()
            &&& after.data()[id - 1].subrange(at, at + c.len()) == c
            &&& after.durable()[id - 1] == after.data()[id - 1]
        },
{
    before.meta().records_are_under_their_own_number();
    let (ids, replicas) = if after.rewritten(before, inode, c) {
        choose|ids: Seq<DiskId>, replicas: Seq<(DiskId, u64)>|
            #[trigger] after.materialized(before, inode, c, ids, replicas) && after.stepped(
                before,
                OpView::UpdateExtents { inode, extents: whole_extents(c, replicas) },
            )
    } else {
        choose|ids: Seq<DiskId>, replicas: Seq<(DiskId, u64)>|
            #[trigger] after.materialized(before, inode, c, ids, replicas) && after.stepped(
                before,
                OpView::CompleteConvert { inode, extents: whole_extents(c, replicas) },
            )
    };
    assert(after.state().inodes[inode].data == LocatorView::Extents(whole_extents(c, replicas)));
    if c.len() > 0 {
        lemma_well_chosen(
            before,
            slots,
            hash::id_hash(inode as u128, u64::MAX),
            c.len(),
            ids,
            replicas,
            k,
            other,
        );
        let n = ids[k].0 - 1;
        assert(replicas[k].0 == ids[k]);
        assert(after.disk_stored(before, ids, c, n));
        assert(ids.contains(Uuid((n + 1) as u128)));
        let at = SEGMENT_BASE_OFFSET + before.cursors()[n];
        assert(after.data()[n].subrange(at, at + c.len()) =~= c);
    }
}

/// The one that failed is the storage: a disk or the log's primary reported the
/// failure, or the local database failed.
pub open spec fn storage_failed<D: Disk>(before: Pool<D>, after: Pool<D>, e: PoolError) -> bool {
    match e {
        PoolError::Io(d) => {
            ||| exists|i: int|
                0 <= i < before.faults().len() && after.faults()[i] == (
                #[trigger] before.faults()[i]).push(d@)
            ||| exists|i: int|
                0 <= i < before.read_faults().len() && (
                #[trigger] before.read_faults()[i]).contains(d@)
        },
        PoolError::Meta(MetaStoreError::Commit(CommitError::PrimaryUnavailable(d))) =>
            after.meta().primary().faults() == before.meta().primary().faults().push(d@),
        PoolError::Meta(MetaStoreError::Redb(_)) => true,
        _ => false,
    }
}

proof fn lemma_op_is_short(op: OpView, r: nat, at: int)
    requires
        r <= 16,
        0 <= at,
        at + 512 <= 0x400_0000,
        match op {
            OpView::AppendChunk { chunk, .. } => chunk.replicas.len() == r,
            OpView::UpdateExtents { extents, .. } => extents.len() <= 1 && (extents.len() == 1
                ==> extents[0].replicas.len() == r),
            OpView::CompleteConvert { extents, .. } => extents.len() <= 1 && (extents.len() == 1
                ==> extents[0].replicas.len() == r),
            _ => false,
        },
    ensures
        !store::log_is_full(at, op),
{
    broadcast use bytes::lemma_le_len;

    assert forall|payload: Seq<u8>| #[trigger] wire::encodes(op, payload) implies at
        + wal::frame_bytes(payload).len() <= wal::WAL_CAPACITY_BYTES by {
        assert(wal::frame_bytes(payload).len() == 12 + payload.len());
        match op {
            OpView::AppendChunk { chunk, .. } => {
                wire::replicas_have_one_length(chunk.replicas);
            },
            OpView::UpdateExtents { extents, .. } => {
                lemma_extents_short(extents, r);
            },
            OpView::CompleteConvert { extents, .. } => {
                lemma_extents_short(extents, r);
            },
            _ => {},
        }
    }
}

proof fn lemma_extents_short(extents: Seq<ExtentView>, r: nat)
    requires
        extents.len() <= 1,
        extents.len() == 1 ==> extents[0].replicas.len() == r,
    ensures
        wire::extents_bytes(extents).len() <= 24 + 24 * r,
{
    broadcast use bytes::lemma_le_len;

    reveal_with_fuel(wire::list_bytes, 2);
    if extents.len() == 1 {
        wire::replicas_have_one_length(extents[0].replicas);
        assert(extents.last() == extents[0]);
        assert(extents.drop_last() =~= Seq::<ExtentView>::empty());
        assert(wire::extent_bytes(extents[0]).len() == 20 + 24 * r);
    }
}

/// An append to a file that may be anywhere is owed where as many disks as
/// replicas have room, the file takes appends, no count overflows and the log has
/// half a kilobyte left: nothing but the storage can then stand in the way.
pub proof fn an_append_is_owed<D: Disk>(
    before: Pool<D>,
    after: Pool<D>,
    inode: InodeId,
    payload: Seq<u8>,
    chunks: Seq<ChunkView>,
    slots: Seq<ReplicaSlot>,
    able: Seq<u128>,
    e: PoolError,
)
    requires
        before.wf(),
        appends(before, after, inode, payload, Err(e)),
        before.state().inodes.dom().contains(inode),
        before.state().inodes[inode].mode != InodeMode::Writable,
        before.state().inodes[inode].data == LocatorView::ChunkLog(chunks),
        before.state().inodes[inode].redundancy == SchemeView::Replicated(slots),
        forall|k: int|
            0 <= k < slots.len() ==> #[trigger] slots[k] == ReplicaSlot::AnyOfClass(None),
        slots.len() <= able.len(),
        all_able(before, able, 28 + payload.len() as int),
        payload.len() <= 0xffff_ffff,
        chunks.len() < 0xffff_ffff,
        before.state().inodes[inode].size + payload.len() <= 0xffff_ffff_ffff_ffff,
        before.meta().log_at() + 512 <= 0x400_0000,
    ensures
        storage_failed(before, after, e),
{
    before.meta().records_are_under_their_own_number();
    assert(appendable(before.state().inodes[inode], chunks));
    if e is Unplaceable {
        no_space_means_too_few_disks(before, after, inode, payload, slots, able);
    }
    if let PoolError::Io(d) = e {
        let i = choose|i: int|
            0 <= i < before.faults().len() && after.faults() == before.faults().update(
                i,
                (#[trigger] before.faults()[i]).push(d@),
            );
        assert(after.faults()[i] == before.faults()[i].push(d@));
    }
    if e is Meta {
        let (ids, replicas) = choose|ids: Seq<DiskId>, replicas: Seq<(DiskId, u64)>| #[trigger]
            after.record_stored(before, inode, payload, ids, replicas) && meta_failed(
                before,
                append_op(before.state(), inode, payload, replicas),
                after,
                e,
            );
        let op = append_op(before.state(), inode, payload, replicas);
        assert(replicas.len() == somes(ids).len());
        lemma_op_is_short(op, replicas.len(), before.meta().log_at() as int);
        assert(store::apply_op(before.state(), op) is Ok);
    }
}

/// A write to a writable file, or the end of a conversion, is owed under the same
/// conditions.
pub proof fn a_rewrite_is_owed<D: Disk>(
    before: Pool<D>,
    after: Pool<D>,
    inode: InodeId,
    finish: bool,
    c: Seq<u8>,
    slots: Seq<ReplicaSlot>,
    able: Seq<u128>,
    e: PoolError,
)
    requires
        before.wf(),
        rewrite_failed(before, after, inode, finish, c, e),
        before.state().inodes.dom().contains(inode),
        finish ==> before.state().inodes[inode].mode == InodeMode::Converting,
        !finish ==> before.state().inodes[inode].mode == InodeMode::Writable,
        before.file(inode) is Ok,
        before.state().inodes[inode].redundancy == SchemeView::Replicated(slots),
        forall|k: int|
            0 <= k < slots.len() ==> #[trigger] slots[k] == ReplicaSlot::AnyOfClass(None),
        slots.len() <= able.len(),
        all_able(before, able, c.len() as int),
        c.len() <= 0xffff_ffff,
        before.meta().log_at() + 512 <= 0x400_0000,
    ensures
        storage_failed(before, after, e),
{
    before.meta().records_are_under_their_own_number();
    if after == before && reads_as(before.read_faults(), before.file(inode), Err(e)) {
        if let PoolError::Io(d) = e {
            let i = choose|i: int|
                0 <= i < before.read_faults().len() && (
                #[trigger] before.read_faults()[i]).contains(d@);
            assert(before.read_faults()[i].contains(d@));
        }
    } else {
        if e is Unplaceable {
            no_space_to_rewrite_means_too_few_disks(
                before,
                after,
                inode,
                finish,
                c,
                slots,
                able,
            );
        }
        if let PoolError::Io(d) = e {
            let i = choose|i: int|
                0 <= i < before.faults().len() && after.faults() == before.faults().update(
                    i,
                    (#[trigger] before.faults()[i]).push(d@),
                );
            assert(after.faults()[i] == before.faults()[i].push(d@));
        }
        if e is Meta {
            let (ids, replicas) = choose|ids: Seq<DiskId>, replicas: Seq<(DiskId, u64)>|
                #[trigger]
                after.materialized(before, inode, c, ids, replicas) && meta_failed(
                    before,
                    point_op(finish, inode, c, replicas),
                    after,
                    e,
                );
            let op = point_op(finish, inode, c, replicas);
            if c.len() > 0 {
                assert(replicas.len() == somes(ids).len());
                lemma_op_is_short(op, replicas.len(), before.meta().log_at() as int);
            } else {
                lemma_op_is_short(op, 0, before.meta().log_at() as int);
            }
            lemma_whole_end(c, replicas);
            assert(store::apply_op(before.state(), op) is Ok);
        }
    }
}

/// A whole file can be read: only a disk whose reads fail, or the local database,
/// can stand in the way. A file that is not there is not found.
pub proof fn a_whole_file_can_be_read<D: Disk>(pool: Pool<D>, inode: InodeId, e: PoolError)
    requires
        load_failed(pool, inode, e),
    ensures
        pool.whole(inode) ==> match e {
            PoolError::Io(d) => exists|i: int|
                0 <= i < pool.read_faults().len() && (
                #[trigger] pool.read_faults()[i]).contains(d@),
            PoolError::Meta(MetaStoreError::Redb(_)) => true,
            _ => false,
        },
        !pool.state().inodes.dom().contains(inode) ==> e is NotFound || e matches PoolError::Meta(
            MetaStoreError::Redb(_),
        ),
{
    if pool.whole(inode) {
        content::settled_content(
            pool.data(),
            pool.data(),
            pool.cursors(),
            pool.state().inodes[inode],
        );
        if let PoolError::Io(d) = e {
            let i = choose|i: int|
                0 <= i < pool.read_faults().len() && (
                #[trigger] pool.read_faults()[i]).contains(d@);
            assert(pool.read_faults()[i].contains(d@));
        }
    }
}

/// An append is refused for what it is refused for: the file is not there, is not
/// one that takes appends, or the storage has no place for it.
pub proof fn appends_are_refused_for_their_reason<D: Disk>(
    before: Pool<D>,
    after: Pool<D>,
    inode: InodeId,
    payload: Seq<u8>,
    e: PoolError,
)
    requires
        appends(before, after, inode, payload, Err(e)),
    ensures
        e is NotFound <==> !before.state().inodes.dom().contains(inode),
        e is WrongMode <==> before.state().inodes.dom().contains(inode) && (
        before.state().inodes[inode].mode == InodeMode::Writable
            || before.state().inodes[inode].data is Extents),
        e is NotFound || e is WrongMode || e is Unplaceable ==> after == before,
{
    let rec = before.state().inodes[inode];
    if let LocatorView::ChunkLog(chunks) = rec.data {
        if rec.mode != InodeMode::Writable {
            assert(appendable(rec, chunks));
        }
    }
}

/// The disks that can take `n` bytes more are those of the pool that have the data
/// role, are active, have space and have that much room.
pub proof fn disks_with_room_are_able<D: Disk>(pool: Pool<D>, able: Seq<u128>, n: nat)
    requires
        0 < n,
        able.no_duplicates(),
        forall|i: int|
            0 <= i < able.len() ==> {
                let e = pool.map().disks[#[trigger] able[i]];
                &&& pool.map().disks.dom().contains(able[i])
                &&& e.roles.data && e.state == DiskState::Active
                &&& e.used_bytes < e.capacity_bytes
                &&& pool.cursors()[able[i] - 1] + n <= 0x1000_0000
            },
    ensures
        all_able(pool, able, n as int),
{
}

/// Erasure coding is never placed, and is no reason to refuse a policy.
pub proof fn erasure_coding_is_not_placed(
    m: Map<u128, DiskEntry>,
    scheme: SchemeView,
    key: u64,
    ids: Seq<DiskId>,
)
    requires
        scheme is ErasureCoded,
    ensures
        unplaceable(m, scheme, key),
        !all_placed(m, scheme, key, ids),
        !unsatisfiable(m, scheme),
{
}

/// A new pool of two disks or more keeps its log on the first two, unless the
/// second reported a failure at once and was dropped.
pub proof fn a_new_pool_logs_on_two_disks<D: Disk>(
    disks: Seq<D>,
    logs: Seq<D>,
    classes: Seq<DiskClass>,
    now_unix: u64,
    pool: Pool<D>,
)
    requires
        logs.len() == log_count(disks.len()),
        formats(disks, logs, classes, now_unix, Ok(pool)),
    ensures
        pool.meta().members().primary == Uuid(1),
        pool.meta().primary().durable() == pool.meta().primary().contents(),
        disks.len() == 1 ==> logs.len() == 1 && pool.meta().backup() is None,
        disks.len() >= 2 ==> logs.len() == 2 && match pool.meta().backup() {
            Some(b) => pool.meta().members().backup == Some(Uuid(2)) && b.durable()
                == b.contents(),
            None => pool.meta().members().backup is None && pool.meta().members().epoch == 1,
        },
{
    let op = OpView::CreateInode(root_record(disks.len(), now_unix));
    let opened = choose|opened: MetaStore<D>|
        keeps_log(opened, logs) && #[trigger] pool.meta().logged(opened, op);
    assert(pool.meta().logged(opened, op));
}

/// Every refusal has its own wording.
pub proof fn errors_are_worded(e: PoolError)
    ensures
        match e {
            PoolError::Unplaceable => error_text(e) == "could not place all required replicas"@,
            PoolError::NotFound => error_text(e) == "no such inode"@,
            PoolError::WrongMode => error_text(e)
                == "operation not valid for this file's current mode"@,
            PoolError::NoDisks => error_text(e) == "a pool needs at least 1 disk"@,
            PoolError::Io(d) => error_text(e) == "I/O error: "@ + d.message@,
            PoolError::Meta(m) => error_text(e) == "metadata error: "@ + store::error_text(m),
        },
{
}

/// Reading comes to the bytes of the file or to a failure, and the failure tells
/// what is wrong: no replica, a disk that the pool does not have, a replica that
/// is cut off, a record that contradicts itself, or a disk that cannot be read.
pub proof fn reading_tells_what_is_wrong(
    faults: Seq<Set<DiskErrorView>>,
    c: Result<Seq<u8>, ReadFault>,
    r: Result<Vec<u8>, PoolError>,
)
    requires
        reads_as(faults, c, r),
    ensures
        r matches Ok(v) ==> c == Ok::<Seq<u8>, ReadFault>(v@),
        r matches Err(e) ==> match e {
            PoolError::Io(d) => (exists|i: int|
                0 <= i < faults.len() && (#[trigger] faults[i]).contains(d@)) || d.kind
                == DiskErrorKind::UnexpectedEof && c == Err::<Seq<u8>, ReadFault>(
                ReadFault::PastEnd,
            ),
            PoolError::Unplaceable => c == Err::<Seq<u8>, ReadFault>(ReadFault::NoReplica),
            PoolError::NotFound => c == Err::<Seq<u8>, ReadFault>(ReadFault::NoSuchDisk),
            PoolError::Meta(_) => c == Err::<Seq<u8>, ReadFault>(ReadFault::BadExtent),
            _ => false,
        },
        c is Ok && (forall|i: int, d: DiskErrorView|
            0 <= i < faults.len() ==> !(#[trigger] faults[i].contains(d))) ==> r is Ok,
{
    if let Err(PoolError::Io(d)) = r {
        if d.kind != DiskErrorKind::UnexpectedEof {
            let i = choose|i: int| 0 <= i < faults.len() && (#[trigger] faults[i]).contains(d@);
            assert(faults[i].contains(d@));
        }
    }
}

} // verus!
