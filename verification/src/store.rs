//! The metadata store: every operation is logged on all metadata disks before
//! it takes effect, and the log replays to the state that reads see.

use crate::bytes;
use crate::codec;
use crate::disk::{self, Disk, DiskErrorView};
use crate::local;
use crate::mode;
use crate::proto::{
    self, DataLocator, Extent, ExtentView, InodeId, InodeMode, InodeRecord, InodeView,
    LocatorView, MetaGroup, MetaOp, OpView,
};
use crate::replicator::{self, CommitError, MetaReplicator};
use crate::segment;
use crate::text;
use crate::wal;
use crate::wire;
use crate::write_path;
use vstd::prelude::*;
use vstd::utf8::*;

verus! {

// ---------------------------------------------------------------------
// The state and the operations on it

/// What the metadata says: the inodes, the directory entries, and the next
/// inode number to hand out.
#[verifier::ext_equal]
pub struct MetaState {
    pub inodes: Map<InodeId, InodeView>,
    pub dirs: Map<(InodeId, Seq<char>), InodeId>,
    pub next_inode: InodeId,
}

/// The state before the first operation.
pub open spec fn initial() -> MetaState {
    MetaState { inodes: Map::empty(), dirs: Map::empty(), next_inode: 1 }
}

/// Why an operation does not apply.
pub enum OpFault {
    NoSuchInode,
    AppendToExtents,
    AlreadyConverted,
    ConvertOutOfOrder,
    NotWritable,
    NoInodeLeft,
    TooManyChunks,
    TooLarge,
    Malformed,
    LogFull,
}

pub open spec fn fault_text(f: OpFault) -> Seq<char> {
    match f {
        OpFault::NoSuchInode => "operation referenced an inode that doesn't exist"@,
        OpFault::AppendToExtents => "AppendChunk against a Writable (extent-mapped) file"@,
        OpFault::AlreadyConverted =>
            "BeginConvert on a file that's already Converting or Writable"@,
        OpFault::ConvertOutOfOrder => "CompleteConvert called out of order"@,
        OpFault::NotWritable => "UpdateExtents against a file that isn't Writable yet"@,
        OpFault::NoInodeLeft => "no inode number is left"@,
        OpFault::TooManyChunks => "a file has more chunks than can be counted"@,
        OpFault::TooLarge => "a file is larger than can be counted"@,
        OpFault::Malformed => "the log holds an entry that is no operation"@,
        OpFault::LogFull => "the log has no room for the operation"@,
    }
}

/// Where the last of the extents ends.
pub open spec fn extents_end(xs: Seq<ExtentView>) -> int
    decreases xs.len(),
{
    if xs.len() == 0 {
        0
    } else {
        let end = xs.last().file_offset + xs.last().len;
        if end > extents_end(xs.drop_last()) {
            end
        } else {
            extents_end(xs.drop_last())
        }
    }
}

/// The state with one inode's record replaced.
pub open spec fn with_inode(s: MetaState, rec: InodeView) -> MetaState {
    MetaState { inodes: s.inodes.insert(rec.inode, rec), ..s }
}

/// What an operation on one inode makes of its record.
pub open spec fn revise(rec: InodeView, op: OpView) -> Result<InodeView, OpFault> {
    match op {
        OpView::AppendChunk { chunk, .. } => match rec.data {
            LocatorView::ChunkLog(chunks) => if chunks.len() >= u32::MAX {
                Err(OpFault::TooManyChunks)
            } else if rec.size + chunk.len > u64::MAX {
                Err(OpFault::TooLarge)
            } else {
                Ok(
                    InodeView {
                        size: (rec.size + chunk.len) as u64,
                        data: LocatorView::ChunkLog(chunks.push(chunk)),
                        ..rec
                    },
                )
            },
            LocatorView::Extents(_) => Err(OpFault::AppendToExtents),
        },
        OpView::BeginConvert { .. } => if rec.mode != InodeMode::AppendOnly {
            Err(OpFault::AlreadyConverted)
        } else {
            Ok(InodeView { mode: InodeMode::Converting, ..rec })
        },
        OpView::CompleteConvert { extents, .. } => if rec.mode != InodeMode::Converting {
            Err(OpFault::ConvertOutOfOrder)
        } else {
            Ok(
                InodeView {
                    mode: InodeMode::Writable,
                    data: LocatorView::Extents(extents),
                    ..rec
                },
            )
        },
        OpView::SetRedundancyScheme { scheme, .. } => Ok(InodeView { redundancy: scheme, ..rec }),
        OpView::UpdateExtents { extents, .. } => if rec.mode != InodeMode::Writable {
            Err(OpFault::NotWritable)
        } else if extents_end(extents) > u64::MAX {
            Err(OpFault::TooLarge)
        } else {
            Ok(
                InodeView {
                    size: extents_end(extents) as u64,
                    data: LocatorView::Extents(extents),
                    ..rec
                },
            )
        },
        _ => Ok(rec),
    }
}

/// The state with the record of `inode` revised.
pub open spec fn revised(s: MetaState, inode: InodeId, op: OpView) -> Result<MetaState, OpFault> {
    if !s.inodes.dom().contains(inode) {
        Err(OpFault::NoSuchInode)
    } else {
        match revise(s.inodes[inode], op) {
            Ok(rec) => Ok(with_inode(s, rec)),
            Err(f) => Err(f),
        }
    }
}

/// What an operation makes of the state.
pub open spec fn apply_op(s: MetaState, op: OpView) -> Result<MetaState, OpFault> {
    match op {
        OpView::CreateInode(rec) => if rec.inode == u64::MAX {
            Err(OpFault::NoInodeLeft)
        } else {
            Ok(
                MetaState {
                    next_inode: if s.next_inode > rec.inode {
                        s.next_inode
                    } else {
                        (rec.inode + 1) as u64
                    },
                    ..with_inode(s, rec)
                },
            )
        },
        OpView::Link { parent, name, child } => Ok(
            MetaState { dirs: s.dirs.insert((parent, name), child), ..s },
        ),
        OpView::Unlink { parent, name } => Ok(
            MetaState { dirs: s.dirs.remove((parent, name)), ..s },
        ),
        OpView::AppendChunk { inode, .. } => revised(s, inode, op),
        OpView::BeginConvert { inode } => revised(s, inode, op),
        OpView::CompleteConvert { inode, .. } => revised(s, inode, op),
        OpView::SetRedundancyScheme { inode, .. } => revised(s, inode, op),
        OpView::UpdateExtents { inode, .. } => revised(s, inode, op),
        OpView::PoolMapChange(_) => Ok(s),
        OpView::MetaGroupChange(_) => Ok(s),
    }
}

/// Whether an operation applies depends on a record.
pub open spec fn looks_up(op: OpView) -> bool {
    op is AppendChunk || op is BeginConvert || op is CompleteConvert || op is SetRedundancyScheme
        || op is UpdateExtents
}

/// The operation changes nothing that the tables hold.
pub open spec fn changes_nothing(op: OpView) -> bool {
    op is PoolMapChange || op is MetaGroupChange
}

/// A log that ends at `at` has no room for the operation.
pub open spec fn log_is_full(at: int, op: OpView) -> bool {
    exists|payload: Seq<u8>| #[trigger]
        wire::encodes(op, payload) && at + wal::frame_bytes(payload).len()
            > wal::WAL_CAPACITY_BYTES
}

/// What the log entries make of the initial state, one after the other.
pub open spec fn replay(entries: Seq<Seq<u8>>) -> Result<MetaState, OpFault>
    decreases entries.len(),
{
    if entries.len() == 0 {
        Ok(initial())
    } else {
        match replay(entries.drop_last()) {
            Ok(s) => match wire::get_op(entries.last()) {
                Some((op, _)) => apply_op(s, op),
                None => Err(OpFault::Malformed),
            },
            Err(f) => Err(f),
        }
    }
}

proof fn lemma_replay_stops(entries: Seq<Seq<u8>>, n: int, f: OpFault)
    requires
        0 <= n <= entries.len(),
        replay(entries.take(n)) == Err::<MetaState, OpFault>(f),
    ensures
        replay(entries) == Err::<MetaState, OpFault>(f),
    decreases entries.len() - n,
{
    if n < entries.len() {
        assert(entries.take(n + 1).drop_last() =~= entries.take(n));
        lemma_replay_stops(entries, n + 1, f);
    } else {
        assert(entries.take(n) =~= entries);
    }
}

// ---------------------------------------------------------------------
// Errors

#[derive(Debug)]
pub enum MetaStoreError {
    Commit(CommitError),
    Redb(String),
    Io(String),
    /// The operation does not apply to the state.
    InvalidOp(&'static str),
}

/// The text of a failed commit.
pub open spec fn commit_text(e: CommitError) -> Seq<char> {
    match e {
        CommitError::BackupUnavailable(d) => "BackupUnavailable("@ + d.detail@ + ")"@,
        CommitError::PrimaryUnavailable(d) => "PrimaryUnavailable("@ + d.detail@ + ")"@,
    }
}

/// The text of an error.
pub open spec fn error_text(e: MetaStoreError) -> Seq<char> {
    match e {
        MetaStoreError::Commit(c) => "WAL commit failed: "@ + commit_text(c),
        MetaStoreError::Redb(m) => "local store error: "@ + m@,
        MetaStoreError::Io(m) => "I/O error: "@ + m@,
        MetaStoreError::InvalidOp(m) => "invalid metadata operation: "@ + m@,
    }
}

impl MetaStoreError {
    /// The text of the error.
    pub fn message(&self) -> (s: String)
        ensures
            s@ == error_text(*self),
    {
        match self {
            MetaStoreError::Commit(CommitError::BackupUnavailable(d)) => {
                let inner = text::joined(text::joined("BackupUnavailable(", d.detail.as_str()).as_str(), ")");
                text::joined("WAL commit failed: ", inner.as_str())
            },
            MetaStoreError::Commit(CommitError::PrimaryUnavailable(d)) => {
                let inner = text::joined(text::joined("PrimaryUnavailable(", d.detail.as_str()).as_str(), ")");
                text::joined("WAL commit failed: ", inner.as_str())
            },
            MetaStoreError::Redb(m) => text::joined("local store error: ", m.as_str()),
            MetaStoreError::Io(m) => text::joined("I/O error: ", m.as_str()),
            MetaStoreError::InvalidOp(m) => text::joined("invalid metadata operation: ", m),
        }
    }
}

fn invalid<T>(Ghost(f): Ghost<OpFault>, text: &'static str) -> (r: Result<T, MetaStoreError>)
    requires
        text@ == fault_text(f),
    ensures
        r matches Err(MetaStoreError::InvalidOp(m)) && m@ == fault_text(f),
{
    Err(MetaStoreError::InvalidOp(text))
}

// ---------------------------------------------------------------------
// The state in the local tables

/// The key of a directory entry: the parent's number in 8 bytes, then the name.
pub open spec fn dir_key(parent: InodeId, name: Seq<char>) -> Seq<u8> {
    wire::u64_bytes(parent) + encode_utf8(name)
}

/// The tables are in order: every record is whole and under its own number,
/// and every entry key is the key of an entry.
pub open spec fn tables_ok(db: redb::Database) -> bool {
    &&& forall|k: InodeId| #[trigger]
        local::inode_rows(db).dom().contains(k) ==> {
            &&& wire::get_inode(local::inode_rows(db)[k]) matches Some((r, _))
            &&& r.inode == k
        }
    &&& forall|k: Seq<u8>| #[trigger]
        local::dir_rows(db).dom().contains(k) ==> is_dir_key(k)
}

pub open spec fn is_dir_key(k: Seq<u8>) -> bool {
    k.len() >= 8 && valid_utf8(k.skip(8))
}

/// The state that the tables hold.
pub open spec fn state_of(db: redb::Database, next_inode: InodeId) -> MetaState {
    MetaState {
        inodes: Map::new(
            |k: InodeId| local::inode_rows(db).dom().contains(k),
            |k: InodeId| wire::get_inode(local::inode_rows(db)[k])->Some_0.0,
        ),
        dirs: Map::new(
            |e: (InodeId, Seq<char>)| local::dir_rows(db).dom().contains(dir_key(e.0, e.1)),
            |e: (InodeId, Seq<char>)| local::dir_rows(db)[dir_key(e.0, e.1)],
        ),
        next_inode,
    }
}

pub proof fn lemma_dir_key(parent: InodeId, name: Seq<char>)
    ensures
        is_dir_key(dir_key(parent, name)),
        dir_key(parent, name).take(8) == wire::u64_bytes(parent),
        bytes::le_value(dir_key(parent, name).take(8)) == parent,
        decode_utf8(dir_key(parent, name).skip(8)) == name,
{
    broadcast use encode_utf8_valid_utf8, encode_utf8_decode_utf8;
    broadcast use crate::bytes::lemma_le_len;

    bytes::lemma_pow256_values();
    bytes::lemma_le_round_trip(parent as nat, 8);
    assert(dir_key(parent, name).take(8) =~= wire::u64_bytes(parent));
    assert(dir_key(parent, name).skip(8) =~= encode_utf8(name));
}

/// Different entries have different keys.
pub proof fn lemma_dir_key_injective(a: (InodeId, Seq<char>), b: (InodeId, Seq<char>))
    requires
        dir_key(a.0, a.1) == dir_key(b.0, b.1),
    ensures
        a == b,
{
    lemma_dir_key(a.0, a.1);
    lemma_dir_key(b.0, b.1);
}

/// Every key of an entry is the key of its parent and name.
pub proof fn lemma_dir_key_of(k: Seq<u8>)
    requires
        is_dir_key(k),
    ensures
        dir_key(bytes::le_value(k.take(8)) as u64, decode_utf8(k.skip(8))) == k,
        bytes::le_value(k.take(8)) <= u64::MAX,
{
    broadcast use decode_utf8_encode_utf8;
    broadcast use crate::bytes::lemma_le_len;

    bytes::lemma_pow256_values();
    bytes::lemma_le_of_value(k.take(8));
    bytes::lemma_le_value_bound(k.take(8));
    assert(dir_key(bytes::le_value(k.take(8)) as u64, decode_utf8(k.skip(8))) =~= k);
}

proof fn lemma_put_inode(before: redb::Database, after: redb::Database, next: InodeId, rec: InodeView)
    requires
        tables_ok(before),
        wire::inode_fits(rec),
        local::dir_rows(after) == local::dir_rows(before),
        local::inode_rows(after) == local::inode_rows(before).insert(
            rec.inode,
            wire::inode_bytes(rec),
        ),
    ensures
        tables_ok(after),
        state_of(after, next) == with_inode(state_of(before, next), rec),
{
    let b = wire::inode_bytes(rec);
    wire::inode_round_trip(rec, Seq::empty());
    assert(b + Seq::<u8>::empty() =~= b);
    assert(state_of(after, next).inodes =~= state_of(before, next).inodes.insert(rec.inode, rec));
    assert(state_of(after, next).dirs =~= state_of(before, next).dirs);
}

proof fn lemma_same_tables(before: redb::Database, after: redb::Database, next: InodeId)
    requires
        tables_ok(before),
        local::dir_rows(after) == local::dir_rows(before),
        local::inode_rows(after) == local::inode_rows(before),
    ensures
        tables_ok(after),
        state_of(after, next) == state_of(before, next),
{
    assert(state_of(after, next).inodes =~= state_of(before, next).inodes);
    assert(state_of(after, next).dirs =~= state_of(before, next).dirs);
}

proof fn lemma_put_dir(
    before: redb::Database,
    after: redb::Database,
    next: InodeId,
    parent: InodeId,
    name: Seq<char>,
    child: InodeId,
)
    requires
        tables_ok(before),
        local::inode_rows(after) == local::inode_rows(before),
        local::dir_rows(after) == local::dir_rows(before).insert(dir_key(parent, name), child),
    ensures
        tables_ok(after),
        state_of(after, next) == (MetaState {
            dirs: state_of(before, next).dirs.insert((parent, name), child),
            ..state_of(before, next)
        }),
{
    lemma_dir_key(parent, name);
    let old_dirs = state_of(before, next).dirs.insert((parent, name), child);
    let new_dirs = state_of(after, next).dirs;
    assert forall|e: (InodeId, Seq<char>)|
        #![trigger new_dirs.dom().contains(e)]
        #![trigger old_dirs.dom().contains(e)]
        new_dirs.dom().contains(e) == old_dirs.dom().contains(e) && (new_dirs.dom().contains(e)
            ==> new_dirs[e] == old_dirs[e]) by {
        if dir_key(e.0, e.1) == dir_key(parent, name) {
            lemma_dir_key_injective(e, (parent, name));
        }
    }
    assert(new_dirs =~= old_dirs);
    assert(state_of(after, next).inodes =~= state_of(before, next).inodes);
}

proof fn lemma_remove_dir(
    before: redb::Database,
    after: redb::Database,
    next: InodeId,
    parent: InodeId,
    name: Seq<char>,
)
    requires
        tables_ok(before),
        local::inode_rows(after) == local::inode_rows(before),
        local::dir_rows(after) == local::dir_rows(before).remove(dir_key(parent, name)),
    ensures
        tables_ok(after),
        state_of(after, next) == (MetaState {
            dirs: state_of(before, next).dirs.remove((parent, name)),
            ..state_of(before, next)
        }),
{
    lemma_dir_key(parent, name);
    let old_dirs = state_of(before, next).dirs.remove((parent, name));
    let new_dirs = state_of(after, next).dirs;
    assert forall|e: (InodeId, Seq<char>)|
        #![trigger new_dirs.dom().contains(e)]
        #![trigger old_dirs.dom().contains(e)]
        new_dirs.dom().contains(e) == old_dirs.dom().contains(e) && (new_dirs.dom().contains(e)
            ==> new_dirs[e] == old_dirs[e]) by {
        if dir_key(e.0, e.1) == dir_key(parent, name) {
            lemma_dir_key_injective(e, (parent, name));
        }
    }
    assert(new_dirs =~= old_dirs);
    assert(state_of(after, next).inodes =~= state_of(before, next).inodes);
}

fn make_dir_key(parent: InodeId, name: &str) -> (key: Vec<u8>)
    ensures
        key@ == dir_key(parent, name@),
{
    let mut key: Vec<u8> = Vec::new();
    bytes::push_le(&mut key, parent as u128, 8);
    key.extend_from_slice(name.as_bytes());
    assert(key@ =~= dir_key(parent, name@));
    key
}

fn redb_error<T>(e: redb::Error) -> (r: Result<T, MetaStoreError>)
    ensures
        r matches Err(MetaStoreError::Redb(_)),
{
    Err(MetaStoreError::Redb(local::message(e)))
}

/// The record of an inode that an operation refers to.
fn read_inode(db: &redb::Database, id: InodeId, Ghost(next): Ghost<InodeId>) -> (r: Result<
    InodeRecord,
    MetaStoreError,
>)
    requires
        tables_ok(*db),
    ensures
        match r {
            Ok(rec) => {
                &&& state_of(*db, next).inodes.dom().contains(id)
                &&& rec@ == state_of(*db, next).inodes[id]
                &&& rec@.inode == id
                &&& wire::inode_fits(rec@)
            },
            Err(MetaStoreError::InvalidOp(m)) => {
                &&& !state_of(*db, next).inodes.dom().contains(id)
                &&& m@ == fault_text(OpFault::NoSuchInode)
            },
            Err(MetaStoreError::Redb(_)) => true,
            _ => false,
        },
{
    match local::get_inode(db, id) {
        Ok(Some(raw)) => {
            proof {
                wire::lemma_got_inode(raw@);
            }
            let rec = codec::try_decode_inode_record(raw.as_slice());
            Ok(rec.unwrap())
        },
        Ok(None) => invalid(
            Ghost(OpFault::NoSuchInode),
            "operation referenced an inode that doesn't exist",
        ),
        Err(e) => redb_error(e),
    }
}

/// Each part of `after` is as it is in `before` or as it is in `aim`.
pub open spec fn halfway(before: MetaState, aim: MetaState, after: MetaState) -> bool {
    &&& after.inodes == before.inodes || after.inodes == aim.inodes
    &&& after.dirs == before.dirs || after.dirs == aim.dirs
    &&& after.next_inode == before.next_inode || after.next_inode == aim.next_inode
}

/// What became of an operation: it took effect, or it does not apply and
/// nothing changed, or the local database failed, and the change is there or
/// not.
pub open spec fn outcome(
    before: MetaState,
    op: OpView,
    after: MetaState,
    r: Result<(), MetaStoreError>,
) -> bool {
    match r {
        Ok(()) => apply_op(before, op) == Ok::<MetaState, OpFault>(after),
        Err(MetaStoreError::InvalidOp(m)) => after == before && match apply_op(before, op) {
            Err(f) => m@ == fault_text(f),
            Ok(_) => false,
        },
        Err(MetaStoreError::Redb(_)) => match apply_op(before, op) {
            Ok(aim) => halfway(before, aim, after),
            Err(_) => after == before,
        },
        _ => false,
    }
}

/// Writes a record to the table.
fn write_inode(db: &mut redb::Database, rec: &InodeRecord, Ghost(next): Ghost<InodeId>) -> (r:
    Result<(), MetaStoreError>)
    requires
        tables_ok(*old(db)),
        wire::inode_fits(rec@),
    ensures
        tables_ok(*final(db)),
        match r {
            Ok(()) => state_of(*final(db), next) == with_inode(state_of(*old(db), next), rec@),
            Err(MetaStoreError::Redb(_)) => state_of(*final(db), next) == state_of(*old(db), next)
                || state_of(*final(db), next) == with_inode(state_of(*old(db), next), rec@),
            _ => false,
        },
{
    let mut e = codec::Encoder::new();
    codec::encode_inode_record(&mut e, rec);
    let raw = e.into_vec();
    assert(raw@ =~= wire::inode_bytes(rec@));
    let ghost before = *db;
    match local::put_inode(db, rec.inode, raw.as_slice()) {
        Ok(()) => {
            proof {
                lemma_put_inode(before, *db, next, rec@);
            }
            Ok(())
        },
        Err(e) => {
            proof {
                if local::inode_rows(*db) == local::inode_rows(before) {
                    lemma_same_tables(before, *db, next);
                } else {
                    lemma_put_inode(before, *db, next, rec@);
                }
            }
            redb_error(e)
        },
    }
}

/// The mode as a number.
pub fn mode_to_u32(m: InodeMode) -> (n: u32)
    ensures
        n == write_path::mode_number(m),
{
    match m {
        InodeMode::AppendOnly => mode::MODE_APPEND_ONLY,
        InodeMode::Converting => mode::MODE_CONVERTING,
        InodeMode::Writable => mode::MODE_WRITABLE,
    }
}

/// The mode with this number.
pub fn u32_to_mode(n: u32) -> (m: InodeMode)
    requires
        n <= mode::MODE_WRITABLE,
    ensures
        write_path::mode_number(m) == n,
{
    if n == mode::MODE_APPEND_ONLY {
        InodeMode::AppendOnly
    } else if n == mode::MODE_CONVERTING {
        InodeMode::Converting
    } else {
        InodeMode::Writable
    }
}

/// Where the last of the extents ends; `None` past the largest `u64`.
fn end_of_extents(extents: &Vec<Extent>) -> (end: Option<u64>)
    ensures
        match end {
            Some(n) => n == extents_end(proto::views(extents@)),
            None => extents_end(proto::views(extents@)) > u64::MAX,
        },
{
    let ghost all = proto::views(extents@);
    let mut end: u64 = 0;
    let mut i: usize = 0;
    assert(all.take(0) =~= Seq::empty());
    while i < extents.len()
        invariant
            i <= extents@.len(),
            all == proto::views(extents@),
            end == extents_end(all.take(i as int)),
        decreases extents@.len() - i,
    {
        let x = &extents[i];
        assert(all.take(i + 1).drop_last() =~= all.take(i as int));
        if x.file_offset > u64::MAX - x.len as u64 {
            proof {
                lemma_end_grows(all, i + 1);
            }
            return None;
        }
        let e: u64 = x.file_offset + x.len as u64;
        if e > end {
            end = e;
        }
        i = i + 1;
    }
    assert(all.take(i as int) =~= all);
    Some(end)
}

pub proof fn lemma_end_grows(xs: Seq<ExtentView>, n: int)
    requires
        0 <= n <= xs.len(),
    ensures
        extents_end(xs.take(n)) <= extents_end(xs),
    decreases xs.len() - n,
{
    if n < xs.len() {
        assert(xs.take(n + 1).drop_last() =~= xs.take(n));
        lemma_end_grows(xs, n + 1);
    } else {
        assert(xs.take(n) =~= xs);
    }
}

fn clone_extents(extents: &Vec<Extent>) -> (r: Vec<Extent>)
    ensures
        proto::views(r@) == proto::views(extents@),
{
    let r = extents.clone();
    assert(proto::views(r@) =~= proto::views(extents@));
    r
}

/// What an operation on one inode makes of its record.
pub fn revise_record(rec: InodeRecord, op: &MetaOp) -> (r: Result<InodeRecord, MetaStoreError>)
    requires
        wire::op_fits(op@),
        wire::inode_fits(rec@),
    ensures
        match revise(rec@, op@) {
            Ok(next) => r is Ok && r->Ok_0@ == next && wire::inode_fits(next) && next.inode
                == rec@.inode,
            Err(f) => r matches Err(MetaStoreError::InvalidOp(m)) && m@ == fault_text(f),
        },
{
    let mut rec = rec;
    match op {
        MetaOp::AppendChunk { chunk, .. } => {
            let size: u64 = rec.size;
            match &mut rec.data {
                DataLocator::ChunkLog(chunks) => {
                    let ghost was = chunks@;
                    if chunks.len() as u64 >= u32::MAX as u64 {
                        return invalid(
                            Ghost(OpFault::TooManyChunks),
                            "a file has more chunks than can be counted",
                        );
                    }
                    if size > u64::MAX - chunk.len as u64 {
                        return invalid(
                            Ghost(OpFault::TooLarge),
                            "a file is larger than can be counted",
                        );
                    }
                    chunks.push(chunk.clone());
                    proof {
                        assert(proto::views(chunks@) =~= proto::views(was).push(chunk@));
                    }
                },
                DataLocator::Extents(_) => {
                    return invalid(
                        Ghost(OpFault::AppendToExtents),
                        "AppendChunk against a Writable (extent-mapped) file",
                    );
                },
            }
            rec.size = size + chunk.len as u64;
            Ok(rec)
        },
        MetaOp::BeginConvert { .. } => {
            let new_mode: i32 = mode::tartine_begin_convert(mode_to_u32(rec.mode));
            if new_mode < 0 {
                return invalid(
                    Ghost(OpFault::AlreadyConverted),
                    "BeginConvert on a file that's already Converting or Writable",
                );
            }
            rec.mode = u32_to_mode(new_mode as u32);
            Ok(rec)
        },
        MetaOp::CompleteConvert { extents, .. } => {
            let new_mode: i32 = mode::tartine_complete_convert(mode_to_u32(rec.mode));
            if new_mode < 0 {
                return invalid(
                    Ghost(OpFault::ConvertOutOfOrder),
                    "CompleteConvert called out of order",
                );
            }
            rec.mode = u32_to_mode(new_mode as u32);
            rec.data = DataLocator::Extents(clone_extents(extents));
            Ok(rec)
        },
        MetaOp::SetRedundancyScheme { scheme, .. } => {
            rec.redundancy = scheme.clone();
            Ok(rec)
        },
        MetaOp::UpdateExtents { extents, .. } => {
            if rec.mode != InodeMode::Writable {
                return invalid(
                    Ghost(OpFault::NotWritable),
                    "UpdateExtents against a file that isn't Writable yet",
                );
            }
            rec.size = match end_of_extents(extents) {
                Some(end) => end,
                None => {
                    return invalid(
                        Ghost(OpFault::TooLarge),
                        "a file is larger than can be counted",
                    );
                },
            };
            rec.data = DataLocator::Extents(clone_extents(extents));
            Ok(rec)
        },
        _ => Ok(rec),
    }
}

// ---------------------------------------------------------------------
// The store

pub struct MetaStore<D: Disk> {
    replicator: MetaReplicator<D>,
    wal_base_offset: u64,
    wal_cursor: u64,
    db: redb::Database,
    next_inode: InodeId,
}

/// The log from `base` to `base + at` replays to `s`, and there is nothing
/// behind it. Inode numbers that were handed out and not used are not in the
/// log.
pub open spec fn log_tells(c: Seq<u8>, base: u64, at: u64, s: MetaState) -> bool {
    let found = wal::scanned(c, base as int);
    &&& found.resume_at == at
    &&& segment::blank(c, base + at)
    &&& replay(found.entries) matches Ok(told)
    &&& told.inodes == s.inodes
    &&& told.dirs == s.dirs
    &&& told.next_inode <= s.next_inode
}

/// The log from `base` to `base + at` holds entries that replay to `s`, whatever
/// lies behind them.
pub open spec fn log_holds(c: Seq<u8>, base: u64, at: u64, s: MetaState) -> bool {
    exists|entries: Seq<Seq<u8>>| #[trigger]
        wal::runs_to(c, base as int, at as nat, entries) && tells(entries, s)
}

/// The entries replay to `s`. Inode numbers that were handed out and not used
/// are not in them.
pub open spec fn tells(entries: Seq<Seq<u8>>, s: MetaState) -> bool {
    &&& replay(entries) matches Ok(told)
    &&& told.inodes == s.inodes
    &&& told.dirs == s.dirs
    &&& told.next_inode <= s.next_inode
}

/// A read of the disk fails with this message.
pub open spec fn unreadable<D: Disk>(disk: D, message: Seq<char>) -> bool {
    exists|e: DiskErrorView| #[trigger] disk.read_faults().contains(e) && e.message == message
}

/// The disk reported the failure `e` while it was written to, and holds at most
/// a part of the `n` bytes from `offset` on.
pub open spec fn gave_out<D: Disk>(
    before: D,
    after: D,
    offset: u64,
    n: nat,
    e: DiskErrorView,
) -> bool {
    &&& replicator::torn(before, after, offset, n)
    &&& after.faults() == before.faults().push(e)
}

impl<D: Disk> View for MetaStore<D> {
    type V = MetaState;

    closed spec fn view(&self) -> MetaState {
        state_of(self.db, self.next_inode)
    }
}

impl<D: Disk> MetaStore<D> {
    /// The store is in order.
    pub closed spec fn wf(self) -> bool {
        &&& tables_ok(self.db)
        &&& self.wal_base_offset + self.wal_cursor <= u64::MAX
        &&& self.wal_cursor <= wal::WAL_CAPACITY_BYTES
        &&& self.replicator.backup() is Some ==> self.replicator.members().epoch < u64::MAX
    }

    /// Every record is under its own number.
    pub proof fn records_are_under_their_own_number(self)
        requires
            self.wf(),
        ensures
            forall|k: InodeId| #[trigger]
                self@.inodes.dom().contains(k) ==> self@.inodes[k].inode == k,
    {
    }

    /// The disk that the log is written to first.
    pub closed spec fn primary(self) -> D {
        self.replicator.primary()
    }

    /// The disk that holds the second copy of the log, if there is one.
    pub closed spec fn backup(self) -> Option<D> {
        self.replicator.backup()
    }

    pub closed spec fn members(self) -> MetaGroup {
        self.replicator.members()
    }

    /// Where the log starts on its disks.
    pub closed spec fn log_base(self) -> u64 {
        self.wal_base_offset
    }

    /// Where the next entry goes, counted from the start of the log.
    pub closed spec fn log_at(self) -> u64 {
        self.wal_cursor
    }

    /// The log on the primary replays to the state that reads see.
    pub open spec fn recoverable(self) -> bool {
        log_tells(self.primary().contents(), self.log_base(), self.log_at(), self@)
    }

    /// So does the log on the backup, if there is one.
    pub open spec fn mirrored(self) -> bool {
        self.backup() matches Some(backup) ==> log_tells(
            backup.contents(),
            self.log_base(),
            self.log_at(),
            self@,
        )
    }

    /// The primary holds everything that was acknowledged, ahead of whatever a
    /// failed write may have left behind it.
    pub open spec fn held_by_primary(self) -> bool {
        log_holds(self.primary().contents(), self.log_base(), self.log_at(), self@)
    }

    /// So does the backup, if there is one.
    pub open spec fn held_by_backup(self) -> bool {
        self.backup() matches Some(backup) ==> log_holds(
            backup.contents(),
            self.log_base(),
            self.log_at(),
            self@,
        )
    }

    /// Everything but the state is as it was.
    pub open spec fn same_log(self, other: Self) -> bool {
        &&& self.primary() == other.primary()
        &&& self.backup() == other.backup()
        &&& self.members() == other.members()
        &&& self.log_base() == other.log_base()
        &&& self.log_at() == other.log_at()
    }

    /// Applies an operation on one inode to its record in the local tables.
    fn revise_inode(&mut self, inode: InodeId, op: &MetaOp) -> (r: Result<(), MetaStoreError>)
        requires
            old(self).wf(),
            wire::op_fits(op@),
        ensures
            final(self).wf(),
            final(self).same_log(*old(self)),
            match r {
                Ok(()) => revised(old(self)@, inode, op@) == Ok::<MetaState, OpFault>(
                    final(self)@,
                ),
                Err(MetaStoreError::InvalidOp(m)) => final(self)@ == old(self)@ && match revised(
                    old(self)@,
                    inode,
                    op@,
                ) {
                    Err(f) => m@ == fault_text(f),
                    Ok(_) => false,
                },
                Err(MetaStoreError::Redb(_)) => match revised(old(self)@, inode, op@) {
                    Ok(aim) => halfway(old(self)@, aim, final(self)@),
                    Err(_) => final(self)@ == old(self)@,
                },
                _ => false,
            },
    {
        let ghost next = self.next_inode;
        match read_inode(&self.db, inode, Ghost(next)) {
            Ok(rec) => match revise_record(rec, op) {
                Ok(rec) => write_inode(&mut self.db, &rec, Ghost(next)),
                Err(e) => Err(e),
            },
            Err(e) => Err(e),
        }
    }

    /// Whether an operation applies to the state.
    fn admits(&self, op: &MetaOp) -> (r: Result<(), MetaStoreError>)
        requires
            self.wf(),
            wire::op_fits(op@),
        ensures
            match r {
                Ok(()) => apply_op(self@, op@) is Ok,
                Err(MetaStoreError::InvalidOp(m)) => apply_op(self@, op@) matches Err(f) && m@
                    == fault_text(f),
                Err(MetaStoreError::Redb(_)) => looks_up(op@),
                Err(_) => false,
            },
    {
        let inode: u64 = match op {
            MetaOp::CreateInode(rec) => {
                if rec.inode == u64::MAX {
                    return invalid(Ghost(OpFault::NoInodeLeft), "no inode number is left");
                }
                return Ok(());
            },
            MetaOp::Link { .. } | MetaOp::Unlink { .. } => {
                return Ok(());
            },
            MetaOp::PoolMapChange(_) | MetaOp::MetaGroupChange(_) => {
                return Ok(());
            },
            MetaOp::AppendChunk { inode, .. } => *inode,
            MetaOp::BeginConvert { inode } => *inode,
            MetaOp::CompleteConvert { inode, .. } => *inode,
            MetaOp::SetRedundancyScheme { inode, .. } => *inode,
            MetaOp::UpdateExtents { inode, .. } => *inode,
        };
        match read_inode(&self.db, inode, Ghost(self.next_inode)) {
            Ok(rec) => match revise_record(rec, op) {
                Ok(_) => Ok(()),
                Err(e) => Err(e),
            },
            Err(e) => Err(e),
        }
    }

    /// Applies an operation to the local tables.
    fn apply_locally(&mut self, op: &MetaOp) -> (r: Result<(), MetaStoreError>)
        requires
            old(self).wf(),
            wire::op_fits(op@),
        ensures
            final(self).wf(),
            final(self).same_log(*old(self)),
            outcome(old(self)@, op@, final(self)@, r),
            changes_nothing(op@) ==> r is Ok,
            op@ matches OpView::CreateInode(rec) ==> rec.inode == u64::MAX ==> (r matches Err(e)
                && e is InvalidOp),
    {
        let ghost next = self.next_inode;
        let ghost before = self.db;
        match op {
            MetaOp::CreateInode(rec) => {
                if rec.inode == u64::MAX {
                    return invalid(Ghost(OpFault::NoInodeLeft), "no inode number is left");
                }
                if self.next_inode < rec.inode + 1 {
                    self.next_inode = rec.inode + 1;
                }
                write_inode(&mut self.db, rec, Ghost(next))
            },
            MetaOp::Link { parent, name, child } => {
                let key = make_dir_key(*parent, name.as_str());
                match local::put_dir(&mut self.db, key.as_slice(), *child) {
                    Ok(()) => {
                        proof {
                            lemma_put_dir(before, self.db, next, *parent, name@, *child);
                        }
                        Ok(())
                    },
                    Err(e) => {
                        proof {
                            if local::dir_rows(self.db) == local::dir_rows(before) {
                                lemma_same_tables(before, self.db, next);
                            } else {
                                lemma_put_dir(before, self.db, next, *parent, name@, *child);
                            }
                        }
                        redb_error(e)
                    },
                }
            },
            MetaOp::Unlink { parent, name } => {
                let key = make_dir_key(*parent, name.as_str());
                match local::remove_dir(&mut self.db, key.as_slice()) {
                    Ok(()) => {
                        proof {
                            lemma_remove_dir(before, self.db, next, *parent, name@);
                        }
                        Ok(())
                    },
                    Err(e) => {
                        proof {
                            if local::dir_rows(self.db) == local::dir_rows(before) {
                                lemma_same_tables(before, self.db, next);
                            } else {
                                lemma_remove_dir(before, self.db, next, *parent, name@);
                            }
                        }
                        redb_error(e)
                    },
                }
            },
            MetaOp::AppendChunk { inode, .. } => self.revise_inode(*inode, op),
            MetaOp::BeginConvert { inode } => self.revise_inode(*inode, op),
            MetaOp::CompleteConvert { inode, .. } => self.revise_inode(*inode, op),
            MetaOp::SetRedundancyScheme { inode, .. } => self.revise_inode(*inode, op),
            MetaOp::UpdateExtents { inode, .. } => self.revise_inode(*inode, op),
            MetaOp::PoolMapChange(_) => Ok(()),
            MetaOp::MetaGroupChange(_) => Ok(()),
        }
    }

    /// Applies one log entry to the local tables.
    fn replay_one(&mut self, entry: &Vec<u8>) -> (r: Result<(), MetaStoreError>)
        requires
            old(self).wf(),
        ensures
            final(self).wf(),
            final(self).same_log(*old(self)),
            match r {
                Ok(()) => wire::get_op(entry@) is Some && apply_op(
                    old(self)@,
                    wire::get_op(entry@)->Some_0.0,
                ) == Ok::<MetaState, OpFault>(final(self)@),
                Err(MetaStoreError::InvalidOp(m)) => match wire::get_op(entry@) {
                    Some((op, _)) => apply_op(old(self)@, op) matches Err(f) && m@ == fault_text(
                        f,
                    ),
                    None => m@ == fault_text(OpFault::Malformed),
                },
                Err(MetaStoreError::Redb(_)) => true,
                Err(_) => false,
            },
    {
        proof {
            wire::lemma_got_op(entry@);
        }
        match codec::try_decode_op(entry.as_slice()) {
            Some(op) => self.apply_locally(&op),
            None => invalid(
                Ghost(OpFault::Malformed),
                "the log holds an entry that is no operation",
            ),
        }
    }

    /// Applies the log entries to the local tables, one after the other.
    #[verifier::loop_isolation(false)]
    fn replay_all(&mut self, log: &Vec<Vec<u8>>) -> (r: Result<(), MetaStoreError>)
        requires
            old(self).wf(),
            old(self)@ == initial(),
        ensures
            final(self).wf(),
            final(self).same_log(*old(self)),
            match r {
                Ok(()) => replay(proto::views(log@)) == Ok::<MetaState, OpFault>(final(self)@),
                Err(MetaStoreError::InvalidOp(m)) => replay(proto::views(log@)) matches Err(f)
                    && m@ == fault_text(f),
                Err(MetaStoreError::Redb(_)) => true,
                Err(_) => false,
            },
    {
        let ghost entries = proto::views(log@);
        let mut i: usize = 0;
        assert(entries.take(0) =~= Seq::empty());
        while i < log.len()
            invariant
                i <= log@.len(),
                self.wf(),
                self.same_log(*old(self)),
                replay(entries.take(i as int)) == Ok::<MetaState, OpFault>(self@),
            decreases log@.len() - i,
        {
            let ghost before = self@;
            let ghost entry = log@[i as int]@;
            assert(entries.take(i + 1).drop_last() =~= entries.take(i as int));
            assert(entries.take(i + 1).last() == entry);
            match self.replay_one(&log[i]) {
                Ok(()) => {},
                Err(e) => {
                    proof {
                        match wire::get_op(entry) {
                            Some((op, _)) => {
                                if let Err(f) = apply_op(before, op) {
                                    lemma_replay_stops(entries, i + 1, f);
                                }
                            },
                            None => {
                                lemma_replay_stops(entries, i + 1, OpFault::Malformed);
                            },
                        }
                    }
                    return Err(e);
                },
            }
            i = i + 1;
        }
        assert(entries.take(i as int) =~= entries);
        Ok(())
    }

    /// Opens the store whose log starts at `wal_base_offset` of `primary`: the
    /// tables of `db` are emptied and the log is replayed into them. Fails
    /// where the log cannot be read, where it does not replay, and where the
    /// local database fails.
    pub fn open(
        group: MetaGroup,
        primary: D,
        backup: Option<D>,
        wal_base_offset: u64,
        db: redb::Database,
    ) -> (r: Result<Self, MetaStoreError>)
        requires
            backup is Some ==> group.epoch < u64::MAX,
        ensures
            match r {
                Ok(store) => {
                    let found = wal::scanned(primary.contents(), wal_base_offset as int);
                    &&& store.wf()
                    &&& store.primary() == primary
                    &&& store.backup() == backup
                    &&& store.members() == group
                    &&& store.log_base() == wal_base_offset
                    &&& store.log_at() == found.resume_at
                    &&& replay(found.entries) == Ok::<MetaState, OpFault>(store@)
                    &&& store.held_by_primary()
                },
                Err(MetaStoreError::InvalidOp(m)) => match replay(
                    wal::scanned(primary.contents(), wal_base_offset as int).entries,
                ) {
                    Err(f) => m@ == fault_text(f),
                    Ok(_) => false,
                },
                Err(MetaStoreError::Io(m)) => unreadable(primary, m@),
                Err(MetaStoreError::Redb(_)) => true,
                Err(MetaStoreError::Commit(_)) => false,
            },
    {
        let scan = match wal::scan(&primary, wal_base_offset) {
            Ok(scan) => scan,
            Err(e) => {
                assert(primary.read_faults().contains(e@));
                return Err(MetaStoreError::Io(e.message));
            },
        };
        let ghost entries = scan@.entries;
        proof {
            crate::framing::lemma_scan_bounds(
                wal::format(),
                primary.contents(),
                wal_base_offset as int,
                0,
            );
        }
        let mut db = db;
        match local::reset(&mut db) {
            Ok(()) => {},
            Err(e) => {
                return redb_error(e);
            },
        }
        let mut store = MetaStore {
            replicator: MetaReplicator::new(group, primary, backup),
            wal_base_offset,
            wal_cursor: scan.resume_at,
            db,
            next_inode: 1,
        };
        proof {
            assert(store@.inodes =~= initial().inodes);
            assert(store@.dirs =~= initial().dirs);
        }
        match store.replay_all(&scan.entries) {
            Ok(()) => {
                proof {
                    let c = store.primary().contents();
                    wal::a_scan_runs_to_its_end(c, wal_base_offset as int);
                    assert(wal::runs_to(
                        c,
                        store.log_base() as int,
                        store.log_at() as nat,
                        entries,
                    ));
                    assert(tells(entries, store@));
                }
                Ok(store)
            },
            Err(e) => Err(e),
        }
    }

    pub fn group(&self) -> (g: MetaGroup)
        ensures
            g == self.members(),
    {
        self.replicator.group()
    }

    /// Whether there is an inode number to hand out.
    pub fn has_free_inode(&self) -> (yes: bool)
        ensures
            yes == (self@.next_inode < u64::MAX),
    {
        self.next_inode < u64::MAX
    }

    /// Hands out an inode number.
    pub fn alloc_inode(&mut self) -> (id: InodeId)
        requires
            old(self).wf(),
            old(self)@.next_inode < u64::MAX,
        ensures
            final(self).wf(),
            final(self).same_log(*old(self)),
            id == old(self)@.next_inode,
            final(self)@ == (MetaState { next_inode: (id + 1) as u64, ..old(self)@ }),
    {
        let id: u64 = self.next_inode;
        self.next_inode = self.next_inode + 1;
        id
    }

    /// The log holds one entry more, a form of `op`: durably on the primary,
    /// and on the backup, unless that failed and was fenced.
    pub open spec fn logged(self, before: Self, op: OpView) -> bool {
        exists|payload: Seq<u8>|
            wire::encodes(op, payload) && #[trigger] self.logged_as(before, payload)
    }

    pub open spec fn logged_as(self, before: Self, payload: Seq<u8>) -> bool {
        let frame = wal::frame_bytes(payload);
        let offset = (before.log_base() + before.log_at()) as u64;
        &&& self.log_base() == before.log_base()
        &&& self.log_at() == before.log_at() + frame.len()
        &&& self.log_at() <= wal::WAL_CAPACITY_BYTES
        &&& replicator::committed(before.primary(), self.primary(), offset, frame)
        &&& self.primary().faults() == before.primary().faults()
        &&& match (before.backup(), self.backup()) {
            (Some(b), Some(a)) => {
                &&& replicator::committed(b, a, offset, frame)
                &&& a.faults() == b.faults()
                &&& self.members() == before.members()
            },
            (Some(b), None) => {
                &&& self.members() == (MetaGroup {
                    primary: before.members().primary,
                    backup: None,
                    epoch: (before.members().epoch + 1) as u64,
                })
                &&& exists|a: D, e: DiskErrorView| #[trigger]
                    gave_out(b, a, offset, frame.len(), e)
            },
            (None, None) => self.members() == before.members(),
            (None, Some(_)) => false,
        }
    }

    /// Logs `op` on the metadata disks and then applies it. Only what the
    /// primary holds durably ever takes effect. A failing backup is fenced and
    /// does not stop the operation; a failing primary does. An operation that
    /// does not apply to the state, or that the log has no room for, is refused
    /// and not logged.
    pub fn apply(&mut self, op: MetaOp) -> (r: Result<(), MetaStoreError>)
        requires
            old(self).wf(),
            wire::op_fits(op@),
        ensures
            final(self).wf(),
            match r {
                Ok(()) => {
                    &&& final(self).logged(*old(self), op@)
                    &&& apply_op(old(self)@, op@) == Ok::<MetaState, OpFault>(final(self)@)
                },
                Err(e) => apply_failed(*old(self), op@, *final(self), e),
            },
            apply_op(old(self)@, op@) is Err ==> {
                &&& r matches Err(e) && !(e is Commit)
                &&& final(self).same_log(*old(self))
                &&& final(self)@ == old(self)@
            },
            old(self).recoverable() && (r is Ok || (r matches Err(e) && e is InvalidOp))
                ==> final(self).recoverable(),
            old(self).mirrored() && (r is Ok || (r matches Err(e) && e is InvalidOp))
                ==> final(self).mirrored(),
            old(self).held_by_primary() && (r matches Err(e) ==> !(e is Redb))
                ==> final(self).held_by_primary(),
            old(self).held_by_backup() && (r matches Err(e) ==> !(e is Redb))
                ==> final(self).held_by_backup(),
    {
        match self.admits(&op) {
            Ok(()) => self.log_and_apply(&op),
            Err(e) => Err(e),
        }
    }

    /// Logs an operation that applies to the state, if there is room for it, and
    /// then applies it. Where the local database fails, it has been logged.
    fn log_and_apply(&mut self, op: &MetaOp) -> (r: Result<(), MetaStoreError>)
        requires
            old(self).wf(),
            wire::op_fits(op@),
            apply_op(old(self)@, op@) is Ok,
        ensures
            final(self).wf(),
            match r {
                Ok(()) => {
                    &&& final(self).logged(*old(self), op@)
                    &&& apply_op(old(self)@, op@) == Ok::<MetaState, OpFault>(final(self)@)
                },
                Err(e) => {
                    &&& apply_failed(*old(self), op@, *final(self), e)
                    &&& e is Redb ==> final(self).logged(*old(self), op@)
                },
            },
            old(self).recoverable() && (r is Ok || (r matches Err(e) && e is InvalidOp))
                ==> final(self).recoverable(),
            old(self).mirrored() && (r is Ok || (r matches Err(e) && e is InvalidOp))
                ==> final(self).mirrored(),
            old(self).held_by_primary() && (r matches Err(e) ==> !(e is Redb))
                ==> final(self).held_by_primary(),
            old(self).held_by_backup() && (r matches Err(e) ==> !(e is Redb))
                ==> final(self).held_by_backup(),
    {
        let payload = codec::encode_op(op);
        let frame = wal::build_frame(payload.as_slice());
        if frame.len() as u64 > wal::WAL_CAPACITY_BYTES - self.wal_cursor {
            proof {
                assert(wire::encodes(op@, payload@));
            }
            return invalid(Ghost(OpFault::LogFull), "the log has no room for the operation");
        }
        let offset: u64 = self.wal_base_offset + self.wal_cursor;
        let ghost before = *self;
        match self.replicator.commit(frame.as_slice(), offset) {
            Ok(()) => {},
            Err(CommitError::BackupUnavailable(e)) => {
                proof {
                    assert(gave_out(
                        before.backup()->0,
                        self.backup()->0,
                        offset,
                        frame@.len(),
                        e@,
                    ));
                }
                self.replicator.fence_backup();
            },
            Err(CommitError::PrimaryUnavailable(e)) => {
                assert(gave_out(
                    before.primary(),
                    self.primary(),
                    (before.log_base() + before.log_at()) as u64,
                    wal::frame_bytes(payload@).len(),
                    e@,
                ));
                proof {
                    if before.held_by_primary() {
                        lemma_log_stays(
                            before.primary(),
                            self.primary(),
                            before.log_base(),
                            before.log_at(),
                            before@,
                            frame@.len(),
                        );
                    }
                }
                return Err(MetaStoreError::Commit(CommitError::PrimaryUnavailable(e)));
            },
        }
        self.wal_cursor = self.wal_cursor + frame.len() as u64;
        let ghost mid = *self;
        assert(mid@ == before@);
        assert(mid.logged_as(before, payload@));
        let r = self.apply_locally(op);
        assert(self.logged_as(before, payload@));
        proof {
            if r is Ok {
                let base = before.log_base();
                let at = before.log_at();
                if before.recoverable() {
                    lemma_log_grows(
                        before.primary(),
                        self.primary(),
                        base,
                        at,
                        before@,
                        op@,
                        payload@,
                        self@,
                    );
                }
                if before.mirrored() && self.backup() is Some {
                    lemma_log_grows(
                        before.backup()->0,
                        self.backup()->0,
                        base,
                        at,
                        before@,
                        op@,
                        payload@,
                        self@,
                    );
                }
                if before.held_by_primary() {
                    lemma_held_grows(
                        before.primary(),
                        self.primary(),
                        base,
                        at,
                        before@,
                        op@,
                        payload@,
                        self@,
                    );
                }
                if before.held_by_backup() && self.backup() is Some {
                    lemma_held_grows(
                        before.backup()->0,
                        self.backup()->0,
                        base,
                        at,
                        before@,
                        op@,
                        payload@,
                        self@,
                    );
                }
            }
        }
        r
    }

    /// The record of an inode.
    pub fn get_inode(&self, id: InodeId) -> (r: Result<Option<InodeRecord>, MetaStoreError>)
        requires
            self.wf(),
        ensures
            match r {
                Ok(Some(rec)) => self@.inodes.dom().contains(id) && rec@ == self@.inodes[id]
                    && wire::inode_fits(rec@) && rec@.inode == id,
                Ok(None) => !self@.inodes.dom().contains(id),
                Err(MetaStoreError::Redb(_)) => true,
                Err(_) => false,
            },
    {
        match local::get_inode(&self.db, id) {
            Ok(Some(raw)) => {
                proof {
                    wire::lemma_got_inode(raw@);
                }
                Ok(codec::try_decode_inode_record(raw.as_slice()))
            },
            Ok(None) => Ok(None),
            Err(e) => redb_error(e),
        }
    }

    /// The inode of the entry `name` of the directory `parent`.
    pub fn lookup(&self, parent: InodeId, name: &str) -> (r: Result<
        Option<InodeId>,
        MetaStoreError,
    >)
        requires
            self.wf(),
        ensures
            match r {
                Ok(Some(child)) => self@.dirs.dom().contains((parent, name@)) && self@.dirs[(
                    parent,
                    name@,
                )] == child,
                Ok(None) => !self@.dirs.dom().contains((parent, name@)),
                Err(MetaStoreError::Redb(_)) => true,
                Err(_) => false,
            },
    {
        let key = make_dir_key(parent, name);
        match local::get_dir(&self.db, key.as_slice()) {
            Ok(found) => Ok(found),
            Err(e) => redb_error(e),
        }
    }

    /// The entries of the directory `parent`, sorted by the bytes of their
    /// names.
    pub fn readdir(&self, parent: InodeId) -> (r: Result<Vec<(String, InodeId)>, MetaStoreError>)
        requires
            self.wf(),
        ensures
            match r {
                Ok(list) => is_listing(self@.dirs, parent, list@),
                Err(MetaStoreError::Redb(_)) => true,
                Err(_) => false,
            },
    {
        let mut prefix: Vec<u8> = Vec::new();
        bytes::push_le(&mut prefix, parent as u128, 8);
        let ghost p = wire::u64_bytes(parent);
        assert(prefix@ =~= p);
        let rows = match local::range_dir(&self.db, prefix.as_slice()) {
            Ok(rows) => rows,
            Err(e) => {
                return redb_error(e);
            },
        };
        let ghost table = local::dir_rows(self.db);
        proof {
            assert forall|k: int| 0 <= k < rows@.len() implies is_dir_key(
                (#[trigger] rows@[k]).0@,
            ) by {
                assert(table.dom().contains(local::row(rows@[k]).0));
            }
        }
        let list = listing(parent, &rows);
        proof {
            lemma_listing(self.db, self.next_inode, parent, rows@, list@);
        }
        Ok(list)
    }

    /// The records of all inodes.
    pub fn inodes(&self) -> (r: Result<Vec<InodeRecord>, MetaStoreError>)
        requires
            self.wf(),
        ensures
            match r {
                Ok(list) => lists_inodes(self@.inodes, proto::views(list@)),
                Err(MetaStoreError::Redb(_)) => true,
                Err(_) => false,
            },
    {
        let rows = match local::all_inodes(&self.db) {
            Ok(rows) => rows,
            Err(e) => {
                return redb_error(e);
            },
        };
        let list = records_in(&rows);
        proof {
            let views = proto::views(list@);
            assert forall|k: InodeId| #[trigger] self@.inodes.dom().contains(k) implies exists|
                i: int,
            | 0 <= i < views.len() && (#[trigger] views[i]) == self@.inodes[k] by {
                assert(local::inode_rows(self.db).dom().contains(k));
                let i = choose|i: int| 0 <= i < rows@.len() && (#[trigger] rows@[i]).0 == k;
                assert(views[i] == self@.inodes[k]);
            }
            assert forall|i: int| 0 <= i < views.len() implies self@.inodes.dom().contains(
                (#[trigger] views[i]).inode,
            ) && self@.inodes[views[i].inode] == views[i] by {
                let k = rows@[i].0;
                assert(local::inode_rows(self.db).dom().contains(k));
            }
        }
        Ok(list)
    }
}

/// `list` holds the records of all inodes and nothing else.
pub open spec fn lists_inodes(inodes: Map<InodeId, InodeView>, list: Seq<InodeView>) -> bool {
    &&& forall|i: int|
        0 <= i < list.len() ==> inodes.dom().contains((#[trigger] list[i]).inode)
            && inodes[list[i].inode] == list[i]
    &&& forall|k: InodeId| #[trigger]
        inodes.dom().contains(k) ==> exists|i: int|
            0 <= i < list.len() && (#[trigger] list[i]) == inodes[k]
}

/// The records in the rows of a table.
pub fn records_in(rows: &Vec<(u64, Vec<u8>)>) -> (list: Vec<InodeRecord>)
    requires
        forall|k: int|
            0 <= k < rows@.len() ==> wire::get_inode((#[trigger] rows@[k]).1@) is Some,
    ensures
        list@.len() == rows@.len(),
        forall|k: int|
            0 <= k < list@.len() ==> (#[trigger] list@[k])@ == wire::get_inode(
                rows@[k].1@,
            )->Some_0.0,
{
    let mut list: Vec<InodeRecord> = Vec::new();
    let mut i: usize = 0;
    while i < rows.len()
        invariant
            i <= rows@.len(),
            list@.len() == i,
            forall|k: int|
                0 <= k < rows@.len() ==> wire::get_inode((#[trigger] rows@[k]).1@) is Some,
            forall|k: int|
                0 <= k < list@.len() ==> (#[trigger] list@[k])@ == wire::get_inode(
                    rows@[k].1@,
                )->Some_0.0,
        decreases rows@.len() - i,
    {
        let ghost here = rows@[i as int];
        let rec = codec::try_decode_inode_record(rows[i].1.as_slice());
        list.push(rec.unwrap());
        i = i + 1;
    }
    list
}

/// `list` holds what `rows` begin with for the directory `parent`, name and
/// inode of each row, up to the first row of another directory.
pub open spec fn begins_with(
    parent: InodeId,
    rows: Seq<(Vec<u8>, u64)>,
    list: Seq<(String, InodeId)>,
) -> bool {
    &&& list.len() <= rows.len()
    &&& forall|k: int|
        0 <= k < list.len() ==> local::row(rows[k]) == (
            dir_key(parent, (#[trigger] list[k]).0@),
            list[k].1,
        )
    &&& list.len() < rows.len() ==> !local::starts_with(
        local::row(rows[list.len() as int]).0,
        wire::u64_bytes(parent),
    )
}

/// The listing of the directory `parent`, from the rows that start where its
/// entries do.
pub fn listing(parent: InodeId, rows: &Vec<(Vec<u8>, u64)>) -> (list: Vec<(String, InodeId)>)
    requires
        forall|k: int| 0 <= k < rows@.len() ==> is_dir_key((#[trigger] rows@[k]).0@),
    ensures
        begins_with(parent, rows@, list@),
{
    let ghost p = wire::u64_bytes(parent);
    let mut list: Vec<(String, InodeId)> = Vec::new();
    let mut i: usize = 0;
    while i < rows.len()
        invariant_except_break
            list@.len() == i,
        invariant
            i <= rows@.len(),
            p == wire::u64_bytes(parent),
            forall|k: int| 0 <= k < rows@.len() ==> is_dir_key((#[trigger] rows@[k]).0@),
            list@.len() <= rows@.len(),
            forall|k: int|
                0 <= k < list@.len() ==> local::row(rows@[k]) == (
                    dir_key(parent, (#[trigger] list@[k]).0@),
                    list@[k].1,
                ),
        ensures
            list@.len() < rows@.len() ==> !local::starts_with(
                local::row(rows@[list@.len() as int]).0,
                p,
            ),
        decreases rows@.len() - i,
    {
        broadcast use crate::bytes::lemma_le_len;

        let (key, child) = (&rows[i].0, rows[i].1);
        proof {
            assert(rows@[i as int].0@ == key@);
            lemma_dir_key_of(key@);
            assert(key@.subrange(0, 8) =~= key@.take(8));
        }
        if bytes::read_le(key.as_slice(), 0, 8) != parent as u128 {
            proof {
                bytes::lemma_pow256_values();
                bytes::lemma_le_round_trip(parent as nat, 8);
            }
            break;
        }
        let raw: Vec<u8> = vstd::slice::slice_to_vec(
            vstd::slice::slice_subrange(key.as_slice(), 8, key.len()),
        );
        assert(raw@ =~= key@.skip(8));
        let name = codec::string_from_utf8(raw).unwrap();
        list.push((name, child));
        i = i + 1;
    }
    list
}

/// What an operation that failed did. It does not apply, or the log has no room
/// for it, and nothing happened; or the primary failed and holds at most a part
/// of it; or the local database failed, before the operation was logged or after.
pub open spec fn apply_failed<D: Disk>(
    before: MetaStore<D>,
    op: OpView,
    after: MetaStore<D>,
    e: MetaStoreError,
) -> bool {
    match e {
        MetaStoreError::InvalidOp(m) => {
            &&& match apply_op(before@, op) {
                Err(f) => m@ == fault_text(f),
                Ok(_) => log_is_full(before.log_at() as int, op) && m@ == fault_text(
                    OpFault::LogFull,
                ),
            }
            &&& after.same_log(before)
            &&& after@ == before@
        },
        MetaStoreError::Redb(_) => {
            ||| looks_up(op) && after.same_log(before) && after@ == before@
            ||| !changes_nothing(op) && after.logged(before, op) && (apply_op(before@, op) matches Ok(
                aim,
            ) && halfway(before@, aim, after@))
        },
        MetaStoreError::Commit(CommitError::PrimaryUnavailable(d)) => {
            &&& apply_op(before@, op) is Ok
            &&& after@ == before@
            &&& after.log_base() == before.log_base()
            &&& after.log_at() == before.log_at()
            &&& after.members() == before.members()
            &&& after.backup() == before.backup()
            &&& after.primary().faults() == before.primary().faults().push(d@)
            &&& exists|payload: Seq<u8>|
                wire::encodes(op, payload) && #[trigger] gave_out(
                    before.primary(),
                    after.primary(),
                    (before.log_base() + before.log_at()) as u64,
                    wal::frame_bytes(payload).len(),
                    d@,
                )
        },
        _ => false,
    }
}

/// `list` holds the entries of the directory `parent`, each once, sorted by
/// the bytes of their names.
pub open spec fn is_listing(
    dirs: Map<(InodeId, Seq<char>), InodeId>,
    parent: InodeId,
    list: Seq<(String, InodeId)>,
) -> bool {
    &&& forall|i: int|
        0 <= i < list.len() ==> dirs.dom().contains((parent, (#[trigger] list[i]).0@)) && dirs[(
            parent,
            list[i].0@,
        )] == list[i].1
    &&& forall|i: int, j: int|
        0 <= i < j < list.len() ==> local::sorts_before(
            encode_utf8((#[trigger] list[i]).0@),
            encode_utf8((#[trigger] list[j]).0@),
        )
    &&& forall|name: Seq<char>| #[trigger]
        dirs.dom().contains((parent, name)) ==> exists|i: int|
            0 <= i < list.len() && (#[trigger] list[i]).0@ == name
}

proof fn lemma_listing(
    db: redb::Database,
    next: InodeId,
    parent: InodeId,
    rows: Seq<(Vec<u8>, u64)>,
    list: Seq<(String, InodeId)>,
)
    requires
        tables_ok(db),
        local::is_range(local::dir_rows(db), wire::u64_bytes(parent), rows),
        begins_with(parent, rows, list),
    ensures
        is_listing(state_of(db, next).dirs, parent, list),
{
    let dirs = state_of(db, next).dirs;
    let table = local::dir_rows(db);
    let p = wire::u64_bytes(parent);
    assert forall|i: int| 0 <= i < list.len() implies dirs.dom().contains(
        (parent, (#[trigger] list[i]).0@),
    ) && dirs[(parent, list[i].0@)] == list[i].1 by {
        let r = rows[i];
        assert(local::row(r).0 == dir_key(parent, list[i].0@));
        assert(table.dom().contains(local::row(rows[i]).0));
    }
    assert forall|i: int, j: int| 0 <= i < j < list.len() implies local::sorts_before(
        encode_utf8((#[trigger] list[i]).0@),
        encode_utf8((#[trigger] list[j]).0@),
    ) by {
        let a = list[i].0@;
        let b = list[j].0@;
        assert(local::sorts_before(local::row(rows[i]).0, local::row(rows[j]).0));
        local::lemma_common_prefix(p, encode_utf8(a), encode_utf8(b));
    }
    assert forall|name: Seq<char>| #[trigger] dirs.dom().contains((parent, name)) implies exists|
        i: int,
    | 0 <= i < list.len() && (#[trigger] list[i]).0@ == name by {
        let key = dir_key(parent, name);
        local::lemma_prefix_first(p, encode_utf8(name));
        lemma_dir_key(parent, name);
        assert(table.dom().contains(key));
        let i = choose|i: int| 0 <= i < rows.len() && local::row(#[trigger] rows[i]).0 == key;
        let n = list.len() as int;
        if i >= n {
            let stop = local::row(rows[n]).0;
            broadcast use crate::bytes::lemma_le_len;

            assert(local::starts_with(key, p));
            if i > n {
                assert(local::sorts_before(local::row(rows[n]).0, local::row(rows[i]).0));
                local::lemma_prefix_ends(p, stop, key);
            }
        } else {
            assert(local::row(rows[i]).0 == dir_key(parent, list[i].0@));
            lemma_dir_key_injective((parent, list[i].0@), (parent, name));
        }
    }
}

// ---------------------------------------------------------------------
// Laws

/// Which inode number comes next does not matter to an operation.
proof fn lemma_apply_next(a: MetaState, b: MetaState, op: OpView)
    requires
        a.inodes == b.inodes,
        a.dirs == b.dirs,
        a.next_inode <= b.next_inode,
    ensures
        match (apply_op(a, op), apply_op(b, op)) {
            (Ok(x), Ok(y)) => x.inodes == y.inodes && x.dirs == y.dirs && x.next_inode
                <= y.next_inode,
            (Err(f), Err(g)) => f == g,
            _ => false,
        },
{
}

/// How far a file's mode has gone.
pub open spec fn mode_rank(m: InodeMode) -> nat {
    match m {
        InodeMode::AppendOnly => 0,
        InodeMode::Converting => 1,
        InodeMode::Writable => 2,
    }
}

/// A file's mode only moves forward, whatever is done to it, unless its inode
/// is created anew.
pub proof fn modes_move_forward(s: MetaState, op: OpView, after: MetaState, inode: InodeId)
    requires
        apply_op(s, op) == Ok::<MetaState, OpFault>(after),
        s.inodes.dom().contains(inode),
        forall|k: InodeId| #[trigger] s.inodes.dom().contains(k) ==> s.inodes[k].inode == k,
        op matches OpView::CreateInode(rec) ==> rec.inode != inode,
    ensures
        after.inodes.dom().contains(inode),
        mode_rank(after.inodes[inode].mode) >= mode_rank(s.inodes[inode].mode),
{
}

/// Only operations on an inode change its record, and unlinking a file leaves
/// its record in place.
pub proof fn other_inodes_stay(s: MetaState, op: OpView, after: MetaState, inode: InodeId)
    requires
        apply_op(s, op) == Ok::<MetaState, OpFault>(after),
        s.inodes.dom().contains(inode),
        forall|k: InodeId| #[trigger] s.inodes.dom().contains(k) ==> s.inodes[k].inode == k,
        match op {
            OpView::CreateInode(rec) => rec.inode != inode,
            OpView::AppendChunk { inode: k, .. } => k != inode,
            OpView::BeginConvert { inode: k } => k != inode,
            OpView::CompleteConvert { inode: k, .. } => k != inode,
            OpView::SetRedundancyScheme { inode: k, .. } => k != inode,
            OpView::UpdateExtents { inode: k, .. } => k != inode,
            _ => true,
        },
    ensures
        after.inodes.dom().contains(inode),
        after.inodes[inode] == s.inodes[inode],
{
}

/// A directory entry that is linked leads to its child, one that is unlinked
/// leads nowhere, and both leave every other entry and all inodes as they were.
pub proof fn entries_come_and_go(
    s: MetaState,
    parent: InodeId,
    name: Seq<char>,
    child: InodeId,
    other: (InodeId, Seq<char>),
)
    ensures
        apply_op(s, OpView::Link { parent, name, child }) matches Ok(t) && {
            &&& t.dirs.dom().contains((parent, name)) && t.dirs[(parent, name)] == child
            &&& t.inodes == s.inodes && t.next_inode == s.next_inode
            &&& other != (parent, name) ==> {
                &&& t.dirs.dom().contains(other) == s.dirs.dom().contains(other)
                &&& s.dirs.dom().contains(other) ==> t.dirs[other] == s.dirs[other]
            }
        },
        apply_op(s, OpView::Unlink { parent, name }) matches Ok(t) && {
            &&& !t.dirs.dom().contains((parent, name))
            &&& t.inodes == s.inodes && t.next_inode == s.next_inode
            &&& other != (parent, name) ==> {
                &&& t.dirs.dom().contains(other) == s.dirs.dom().contains(other)
                &&& s.dirs.dom().contains(other) ==> t.dirs[other] == s.dirs[other]
            }
        },
{
}

/// A new inode is there as it was given, its number is not handed out again, and
/// nothing else changed. It is refused only where no number would be left.
pub proof fn a_new_inode_is_there(s: MetaState, rec: InodeView, other: InodeId)
    ensures
        rec.inode < u64::MAX ==> (apply_op(s, OpView::CreateInode(rec)) matches Ok(t) && {
            &&& t.inodes.dom().contains(rec.inode) && t.inodes[rec.inode] == rec
            &&& t.dirs == s.dirs
            &&& t.next_inode > rec.inode
            &&& t.next_inode == s.next_inode || t.next_inode == rec.inode + 1
            &&& t.next_inode >= s.next_inode
            &&& other != rec.inode ==> {
                &&& t.inodes.dom().contains(other) == s.inodes.dom().contains(other)
                &&& s.inodes.dom().contains(other) ==> t.inodes[other] == s.inodes[other]
            }
        }),
        rec.inode == u64::MAX ==> apply_op(s, OpView::CreateInode(rec)) == Err::<
            MetaState,
            OpFault,
        >(OpFault::NoInodeLeft),
{
}

/// Of a record only what an operation is about changes.
pub open spec fn same_identity(a: InodeView, b: InodeView) -> bool {
    &&& a.inode == b.inode
    &&& a.uid == b.uid
    &&& a.gid == b.gid
    &&& a.unix_mode == b.unix_mode
    &&& a.mtime_unix == b.mtime_unix
}

/// A chunk that is added comes last, the file grows by its length, and nothing
/// else of the file changes. It is refused only where the file is kept in extents
/// or a count would overflow.
pub proof fn a_chunk_lengthens_its_file(s: MetaState, inode: InodeId, chunk: proto::ChunkView)
    requires
        s.inodes.dom().contains(inode),
        s.inodes[inode].inode == inode,
    ensures
        ({
            let rec = s.inodes[inode];
            match apply_op(s, OpView::AppendChunk { inode, chunk }) {
                Ok(t) => {
                    let now = t.inodes[inode];
                    &&& rec.data matches LocatorView::ChunkLog(chunks) && now.data
                        == LocatorView::ChunkLog(chunks + seq![chunk])
                    &&& now.size == rec.size + chunk.len
                    &&& now.mode == rec.mode && now.redundancy == rec.redundancy
                    &&& same_identity(now, rec)
                    &&& t.dirs == s.dirs && t.next_inode == s.next_inode
                    &&& t.inodes.dom() == s.inodes.dom()
                },
                Err(f) => match rec.data {
                    LocatorView::Extents(_) => f == OpFault::AppendToExtents,
                    LocatorView::ChunkLog(chunks) => {
                        ||| chunks.len() >= u32::MAX && f == OpFault::TooManyChunks
                        ||| rec.size + chunk.len > u64::MAX && f == OpFault::TooLarge
                    },
                },
            }
        }),
{
    let rec = s.inodes[inode];
    if let LocatorView::ChunkLog(chunks) = rec.data {
        assert(chunks.push(chunk) =~= chunks + seq![chunk]);
    }
    if let Ok(t) = apply_op(s, OpView::AppendChunk { inode, chunk }) {
        assert(t.inodes.dom() =~= s.inodes.dom());
    }
}

/// A conversion changes the mode, and when it ends where the bytes are; the size,
/// the redundancy and the owner stay. Each step is refused in every other mode.
pub proof fn a_conversion_keeps_the_file(
    s: MetaState,
    inode: InodeId,
    extents: Seq<ExtentView>,
)
    requires
        s.inodes.dom().contains(inode),
        s.inodes[inode].inode == inode,
    ensures
        ({
            let rec = s.inodes[inode];
            &&& match apply_op(s, OpView::BeginConvert { inode }) {
                Ok(t) => {
                    let now = t.inodes[inode];
                    &&& rec.mode == InodeMode::AppendOnly && now.mode == InodeMode::Converting
                    &&& now.data == rec.data && now.size == rec.size
                    &&& now.redundancy == rec.redundancy && same_identity(now, rec)
                    &&& t.dirs == s.dirs && t.next_inode == s.next_inode
                },
                Err(f) => rec.mode != InodeMode::AppendOnly && f == OpFault::AlreadyConverted,
            }
            &&& match apply_op(s, OpView::CompleteConvert { inode, extents }) {
                Ok(t) => {
                    let now = t.inodes[inode];
                    &&& rec.mode == InodeMode::Converting && now.mode == InodeMode::Writable
                    &&& now.data == LocatorView::Extents(extents) && now.size == rec.size
                    &&& now.redundancy == rec.redundancy && same_identity(now, rec)
                    &&& t.dirs == s.dirs && t.next_inode == s.next_inode
                },
                Err(f) => rec.mode != InodeMode::Converting && f == OpFault::ConvertOutOfOrder,
            }
        }),
{
}

/// A change of the extents makes the file as long as the extent that reaches
/// furthest, and is refused in a file that is not writable.
pub proof fn extents_make_the_size(s: MetaState, inode: InodeId, extents: Seq<ExtentView>)
    requires
        s.inodes.dom().contains(inode),
        s.inodes[inode].inode == inode,
    ensures
        ({
            let rec = s.inodes[inode];
            match apply_op(s, OpView::UpdateExtents { inode, extents }) {
                Ok(t) => {
                    let now = t.inodes[inode];
                    &&& rec.mode == InodeMode::Writable && now.mode == InodeMode::Writable
                    &&& now.data == LocatorView::Extents(extents)
                    &&& extents.len() == 0 ==> now.size == 0
                    &&& forall|i: int|
                        0 <= i < extents.len() ==> now.size >= (#[trigger] extents[i]).file_offset
                            + extents[i].len
                    &&& extents.len() > 0 ==> now.size == 0 || exists|i: int|
                        0 <= i < extents.len() && now.size == (
                        #[trigger] extents[i]).file_offset + extents[i].len
                    &&& now.redundancy == rec.redundancy && same_identity(now, rec)
                    &&& t.dirs == s.dirs && t.next_inode == s.next_inode
                },
                Err(f) => {
                    ||| rec.mode != InodeMode::Writable && f == OpFault::NotWritable
                    ||| f == OpFault::TooLarge && exists|i: int|
                        0 <= i < extents.len() && (#[trigger] extents[i]).file_offset
                            + extents[i].len > u64::MAX
                },
            }
        }),
{
    lemma_extents_reach(extents);
}

proof fn lemma_extents_reach(xs: Seq<ExtentView>)
    ensures
        extents_end(xs) >= 0,
        forall|i: int|
            0 <= i < xs.len() ==> extents_end(xs) >= (#[trigger] xs[i]).file_offset + xs[i].len,
        extents_end(xs) == 0 || exists|i: int|
            0 <= i < xs.len() && extents_end(xs) == (#[trigger] xs[i]).file_offset + xs[i].len,
    decreases xs.len(),
{
    if xs.len() > 0 {
        let init = xs.drop_last();
        lemma_extents_reach(init);
        assert forall|i: int| 0 <= i < xs.len() implies extents_end(xs) >= (
        #[trigger] xs[i]).file_offset + xs[i].len by {
            if i < init.len() {
                assert(init[i] == xs[i]);
            }
        }
        if extents_end(xs) == extents_end(init) && extents_end(xs) != 0 {
            let i = choose|i: int|
                0 <= i < init.len() && extents_end(init) == (#[trigger] init[i]).file_offset
                    + init[i].len;
            assert(xs[i] == init[i]);
        } else if extents_end(xs) != 0 {
            assert(xs[xs.len() - 1] == xs.last());
        }
    }
}

/// A new redundancy is the one that was asked for, whatever it was and in every
/// mode, and nothing else of the file changes.
pub proof fn redundancy_is_what_was_asked_for(
    s: MetaState,
    inode: InodeId,
    scheme: proto::SchemeView,
)
    requires
        s.inodes.dom().contains(inode),
        s.inodes[inode].inode == inode,
    ensures
        apply_op(s, OpView::SetRedundancyScheme { inode, scheme }) matches Ok(t) && {
            let rec = s.inodes[inode];
            let now = t.inodes[inode];
            &&& now.redundancy == scheme
            &&& now.mode == rec.mode && now.data == rec.data && now.size == rec.size
            &&& same_identity(now, rec)
            &&& t.dirs == s.dirs && t.next_inode == s.next_inode
        },
{
}

/// What is done to an inode that is not there is refused as that, and changes of
/// the pool or of the metadata group leave files and directories alone.
pub proof fn missing_inodes_are_refused(s: MetaState, op: OpView, inode: InodeId)
    ensures
        !s.inodes.dom().contains(inode) && (match op {
            OpView::AppendChunk { inode: k, .. } => k == inode,
            OpView::BeginConvert { inode: k } => k == inode,
            OpView::CompleteConvert { inode: k, .. } => k == inode,
            OpView::SetRedundancyScheme { inode: k, .. } => k == inode,
            OpView::UpdateExtents { inode: k, .. } => k == inode,
            _ => false,
        }) ==> apply_op(s, op) == Err::<MetaState, OpFault>(OpFault::NoSuchInode),
        op is PoolMapChange || op is MetaGroupChange ==> apply_op(s, op) == Ok::<
            MetaState,
            OpFault,
        >(s),
{
}

/// A listing has every entry of its directory once, with the inode that it leads
/// to, and none of another directory.
pub proof fn a_listing_is_the_directory(
    dirs: Map<(InodeId, Seq<char>), InodeId>,
    parent: InodeId,
    list: Seq<(String, InodeId)>,
    name: Seq<char>,
)
    requires
        is_listing(dirs, parent, list),
    ensures
        dirs.dom().contains((parent, name)) <==> exists|i: int|
            0 <= i < list.len() && (#[trigger] list[i]).0@ == name,
        forall|i: int|
            0 <= i < list.len() && (#[trigger] list[i]).0@ == name ==> list[i].1 == dirs[(
                parent,
                name,
            )],
        forall|i: int, j: int|
            0 <= i < j < list.len() ==> (#[trigger] list[i]).0@ != (#[trigger] list[j]).0@,
        forall|i: int, j: int|
            0 <= i < j < list.len() ==> local::sorts_before(
                encode_utf8((#[trigger] list[i]).0@),
                encode_utf8((#[trigger] list[j]).0@),
            ),
{
    assert forall|i: int, j: int| 0 <= i < j < list.len() implies (#[trigger] list[i]).0@ != (
    #[trigger] list[j]).0@ by {
        let a = encode_utf8(list[i].0@);
        assert(local::sorts_before(a, encode_utf8(list[j].0@)));
        local::lemma_sorts_before_itself(a);
    }
}

/// Inode numbers are handed out once: every inode's number is below the next
/// one, and stays so.
pub proof fn next_inode_is_unused(s: MetaState, op: OpView, after: MetaState)
    requires
        apply_op(s, op) == Ok::<MetaState, OpFault>(after),
        forall|k: InodeId| #[trigger] s.inodes.dom().contains(k) ==> k < s.next_inode,
        forall|k: InodeId| #[trigger] s.inodes.dom().contains(k) ==> s.inodes[k].inode == k,
    ensures
        after.next_inode >= s.next_inode,
        forall|k: InodeId| #[trigger] after.inodes.dom().contains(k) ==> k < after.next_inode,
{
}

/// An operation that was logged and took effect keeps a log true: it replays
/// to the new state.
proof fn lemma_log_grows<D: Disk>(
    before: D,
    after: D,
    base: u64,
    at: u64,
    s: MetaState,
    op: OpView,
    payload: Seq<u8>,
    next: MetaState,
)
    requires
        log_tells(before.contents(), base, at, s),
        wire::op_fits(op),
        wire::encodes(op, payload),
        replicator::committed(before, after, (base + at) as u64, wal::frame_bytes(payload)),
        apply_op(s, op) == Ok::<MetaState, OpFault>(next),
        at + wal::frame_bytes(payload).len() <= wal::WAL_CAPACITY_BYTES,
        base + at <= u64::MAX,
    ensures
        log_tells(
            after.contents(),
            base,
            (at + wal::frame_bytes(payload).len()) as u64,
            next,
        ),
{
    let c = before.contents();
    let found = wal::scanned(c, base as int);
    wal::scan_finds_what_was_logged(c, base as int, payload);
    wire::op_round_trip(op, payload, Seq::empty());
    assert(payload + Seq::<u8>::empty() =~= payload);
    let entries = found.entries.push(payload);
    assert(entries.drop_last() =~= found.entries);
    lemma_apply_next(replay(found.entries)->Ok_0, s, op);
}

/// A write at the end of the log, whatever it left there, leaves the log as
/// true as it was.
proof fn lemma_log_stays<D: Disk>(
    before: D,
    after: D,
    base: u64,
    at: u64,
    s: MetaState,
    n: nat,
)
    requires
        log_holds(before.contents(), base, at, s),
        replicator::torn(before, after, (base + at) as u64, n),
        base + at <= u64::MAX,
    ensures
        log_holds(after.contents(), base, at, s),
{
    let entries = choose|entries: Seq<Seq<u8>>| #[trigger]
        wal::runs_to(before.contents(), base as int, at as nat, entries) && tells(entries, s);
    wal::what_the_log_holds_stays(
        before.contents(),
        after.contents(),
        base as int,
        at as nat,
        entries,
        n,
    );
}

/// An operation that was logged and took effect keeps a log true, whatever lies
/// behind it.
proof fn lemma_held_grows<D: Disk>(
    before: D,
    after: D,
    base: u64,
    at: u64,
    s: MetaState,
    op: OpView,
    payload: Seq<u8>,
    next: MetaState,
)
    requires
        log_holds(before.contents(), base, at, s),
        wire::op_fits(op),
        wire::encodes(op, payload),
        replicator::committed(before, after, (base + at) as u64, wal::frame_bytes(payload)),
        apply_op(s, op) == Ok::<MetaState, OpFault>(next),
        at + wal::frame_bytes(payload).len() <= wal::WAL_CAPACITY_BYTES,
        base + at <= u64::MAX,
    ensures
        log_holds(
            after.contents(),
            base,
            (at + wal::frame_bytes(payload).len()) as u64,
            next,
        ),
{
    let c = before.contents();
    let entries = choose|entries: Seq<Seq<u8>>| #[trigger]
        wal::runs_to(c, base as int, at as nat, entries) && tells(entries, s);
    wal::the_log_holds_what_was_written(c, base as int, at as nat, entries, payload);
    replay_applies_each_operation(entries, payload, op, replay(entries)->Ok_0);
    lemma_apply_next(replay(entries)->Ok_0, s, op);
    assert(tells(entries.push(payload), next));
}

/// An operation that failed takes nothing from the log that was acknowledged,
/// unless it was the local database that failed.
pub proof fn a_failed_operation_keeps_the_log<D: Disk>(
    before: MetaStore<D>,
    op: OpView,
    after: MetaStore<D>,
    e: MetaStoreError,
)
    requires
        before.wf(),
        apply_failed(before, op, after, e),
        !(e is Redb),
    ensures
        before.held_by_primary() ==> after.held_by_primary(),
        before.held_by_backup() ==> after.held_by_backup(),
{
    if let MetaStoreError::Commit(CommitError::PrimaryUnavailable(d)) = e {
        if before.held_by_primary() {
            let payload = choose|payload: Seq<u8>|
                wire::encodes(op, payload) && #[trigger] gave_out(
                    before.primary(),
                    after.primary(),
                    (before.log_base() + before.log_at()) as u64,
                    wal::frame_bytes(payload).len(),
                    d@,
                );
            lemma_log_stays(
                before.primary(),
                after.primary(),
                before.log_base(),
                before.log_at(),
                before@,
                wal::frame_bytes(payload).len(),
            );
        }
    }
}

/// Everything that was acknowledged is found again: whatever a failed write left
/// on the primary, the entries that a scan finds start with some that replay to
/// the inodes and directories that were there.
pub proof fn what_was_acknowledged_is_found<D: Disk>(closed: MetaStore<D>)
    requires
        closed.held_by_primary(),
    ensures
        exists|entries: Seq<Seq<u8>>| #[trigger]
            entries.is_prefix_of(
                wal::scanned(closed.primary().contents(), closed.log_base() as int).entries,
            ) && tells(entries, closed@),
{
    let c = closed.primary().contents();
    let base = closed.log_base() as int;
    let at = closed.log_at() as nat;
    let entries = choose|entries: Seq<Seq<u8>>| #[trigger]
        wal::runs_to(c, base, at, entries) && tells(entries, closed@);
    wal::what_the_log_holds_comes_first(c, base, at, entries);
}

/// An entry that was acknowledged is found behind those that were there before
/// it, and ahead of anything else.
pub proof fn an_acknowledged_entry_is_found<D: Disk>(
    before: MetaStore<D>,
    after: MetaStore<D>,
    payload: Seq<u8>,
)
    requires
        before.wf(),
        after.logged_as(before, payload),
        wal::scanned(before.primary().contents(), before.log_base() as int).resume_at
            == before.log_at(),
    ensures
        wal::scanned(before.primary().contents(), before.log_base() as int).entries.push(
            payload,
        ).is_prefix_of(
            wal::scanned(after.primary().contents(), after.log_base() as int).entries,
        ),
{
    let c = before.primary().contents();
    let base = before.log_base() as int;
    let at = before.log_at() as nat;
    let entries = wal::scanned(c, base).entries;
    wal::a_scan_runs_to_its_end(c, base);
    wal::the_log_holds_what_was_written(c, base, at, entries, payload);
    wal::what_the_log_holds_comes_first(
        after.primary().contents(),
        base,
        after.log_at() as nat,
        entries.push(payload),
    );
}

/// `opened` has the inodes and the directories of `closed`. Inode numbers that
/// were handed out and not used may be handed out again.
pub open spec fn gives_back(opened: MetaState, closed: MetaState) -> bool {
    &&& opened.inodes == closed.inodes
    &&& opened.dirs == closed.dirs
    &&& opened.next_inode <= closed.next_inode
}

/// Reopening gives the state back: the log that the primary holds replays, and
/// to the inodes and directories of the store that was closed.
pub proof fn reopening_restores_the_state<D: Disk>(closed: MetaStore<D>)
    requires
        closed.recoverable(),
    ensures
        replay(wal::scanned(closed.primary().contents(), closed.log_base() as int).entries) matches Ok(
            opened,
        ) && gives_back(opened, closed@),
{
}

/// Either metadata disk alone has everything: so does the log that the backup
/// holds.
pub proof fn the_backup_restores_the_state<D: Disk>(closed: MetaStore<D>, backup: D)
    requires
        closed.mirrored(),
        closed.backup() == Some(backup),
    ensures
        replay(wal::scanned(backup.contents(), closed.log_base() as int).entries) matches Ok(opened)
            && gives_back(opened, closed@),
{
}

/// Reopening gives the state back, whatever is done: a store that can be
/// recovered can be after every operation that succeeds and after every one that
/// is refused.
pub proof fn a_recoverable_store_stays_so<D: Disk>(
    before: MetaStore<D>,
    op: OpView,
    after: MetaStore<D>,
)
    requires
        before.wf(),
        before.recoverable(),
        wire::op_fits(op),
        ({
            ||| after.logged(before, op) && apply_op(before@, op) == Ok::<MetaState, OpFault>(
                after@,
            )
            ||| after.same_log(before) && after@ == before@
        }),
    ensures
        after.recoverable(),
{
    if !(after.same_log(before) && after@ == before@) {
        let payload = choose|payload: Seq<u8>|
            wire::encodes(op, payload) && #[trigger] after.logged_as(before, payload);
        lemma_log_grows(
            before.primary(),
            after.primary(),
            before.log_base(),
            before.log_at(),
            before@,
            op,
            payload,
            after@,
        );
    }
}

/// Whatever happens to the disk behind the end of the log, the entries before
/// it are found again, in order, ahead of anything else.
pub proof fn logged_entries_survive(before: Seq<u8>, after: Seq<u8>, base: int, n: nat)
    requires
        0 <= base,
        disk::same_outside(before, after, base + wal::scanned(before, base).resume_at, n),
    ensures
        wal::scanned(before, base).entries.is_prefix_of(wal::scanned(after, base).entries),
{
    let f = wal::format();
    let found = crate::framing::scan_log(f, before, base);
    crate::framing::lemma_scan_bounds(f, before, base, 0);
    crate::framing::lemma_scan_resumes(f, before, after, base, 0);
    let more = crate::framing::scan_from(f, after, base, found.resume_at);
    assert(wal::payloads(found.entries + more.entries).take(found.entries.len() as int)
        =~= wal::payloads(found.entries));
}

/// The log entries are replayed in order, and each is the bytes of the
/// operation that was logged: replaying one entry more applies one operation
/// more.
pub proof fn replay_applies_each_operation(
    entries: Seq<Seq<u8>>,
    payload: Seq<u8>,
    op: OpView,
    s: MetaState,
)
    requires
        replay(entries) == Ok::<MetaState, OpFault>(s),
        wire::encodes(op, payload),
        wire::op_fits(op),
    ensures
        replay(entries.push(payload)) == apply_op(s, op),
{
    wire::op_round_trip(op, payload, Seq::empty());
    assert(payload + Seq::<u8>::empty() =~= payload);
    assert(entries.push(payload).drop_last() =~= entries);
}

/// An operation that was acknowledged is on the primary, durably, and on the
/// backup too, unless that one reported a failure and was dropped from the group.
pub proof fn an_acknowledged_operation_is_on_both_disks<D: Disk>(
    before: MetaStore<D>,
    after: MetaStore<D>,
    payload: Seq<u8>,
)
    requires
        before.wf(),
        payload.len() <= u32::MAX,
        after.logged_as(before, payload),
    ensures
        ({
            let at = before.log_base() + before.log_at();
            let held = |d: D|
                d.durable() == d.contents() && d.contents().len() >= at + 12 + payload.len()
                    && d.contents().subrange(at + 12, at + 12 + payload.len()) == payload;
            &&& held(after.primary())
            &&& after.log_at() == before.log_at() + 12 + payload.len()
            &&& after.log_at() <= 0x400_0000
            &&& match (before.backup(), after.backup()) {
                (Some(_), Some(a)) => held(a) && after.members() == before.members(),
                (Some(_), None) => after.members().backup is None && after.members().primary
                    == before.members().primary && after.members().epoch
                    == (before.members().epoch + 1) as u64,
                (None, None) => after.members() == before.members(),
                (None, Some(_)) => false,
            }
        }),
{
    wal::a_frame_has_its_parts_in_order(payload);
    let frame = wal::frame_bytes(payload);
    let at = before.log_base() + before.log_at();
    let n = payload.len() as int;
    lemma_held(before.primary().contents(), at, frame, n);
    if let (Some(b), Some(a)) = (before.backup(), after.backup()) {
        lemma_held(b.contents(), at, frame, n);
    }
}

proof fn lemma_held(contents: Seq<u8>, at: int, frame: Seq<u8>, n: int)
    requires
        0 <= at,
        0 <= n,
        frame.len() == 12 + n,
    ensures
        ({
            let c = disk::written(contents, at, frame);
            c.len() >= at + 12 + n && c.subrange(at + 12, at + 12 + n) == frame.skip(12)
        }),
{
    assert(disk::written(contents, at, frame).subrange(at + 12, at + 12 + n) =~= frame.skip(12));
}

/// Every entry of the log is applied in turn to a state that starts empty, with
/// the first inode number to come.
pub proof fn a_log_starts_from_nothing()
    ensures
        replay(Seq::empty()) matches Ok(s) && s.inodes.dom() == Set::<InodeId>::empty()
            && s.dirs.dom() == Set::<(InodeId, Seq<char>)>::empty() && s.next_inode == 1,
{
}

/// Every fault has its own wording.
pub proof fn faults_are_worded(m: &'static str)
    ensures
        fault_text(OpFault::NoSuchInode) == "operation referenced an inode that doesn't exist"@,
        fault_text(OpFault::AppendToExtents)
            == "AppendChunk against a Writable (extent-mapped) file"@,
        fault_text(OpFault::AlreadyConverted)
            == "BeginConvert on a file that's already Converting or Writable"@,
        fault_text(OpFault::ConvertOutOfOrder) == "CompleteConvert called out of order"@,
        fault_text(OpFault::NotWritable)
            == "UpdateExtents against a file that isn't Writable yet"@,
        error_text(MetaStoreError::InvalidOp(m)) == "invalid metadata operation: "@ + m@,
{
}

/// A log with an entry that is no operation, or one that does not apply, does not
/// replay, whatever comes behind it; and one that replays does so up to every
/// entry.
pub proof fn a_bad_entry_stops_the_replay(
    entries: Seq<Seq<u8>>,
    bad: Seq<u8>,
    more: Seq<Seq<u8>>,
)
    ensures
        replay(entries) matches Ok(s) ==> (match wire::get_op(bad) {
            Some((op, _)) => apply_op(s, op) matches Err(f) ==> replay(entries.push(bad) + more)
                == Err::<MetaState, OpFault>(f),
            None => replay(entries.push(bad) + more) == Err::<MetaState, OpFault>(
                OpFault::Malformed,
            ),
        }),
        replay(entries + more) is Ok ==> replay(entries) is Ok,
{
    let with = entries.push(bad);
    let all = with + more;
    let n = with.len() as int;
    assert(all.take(n) =~= with);
    assert(with.drop_last() =~= entries);
    if let Err(f) = replay(with) {
        lemma_replay_stops(all, n, f);
    }
    let rest = entries + more;
    assert(rest.take(entries.len() as int) =~= entries);
    if let Err(f) = replay(entries) {
        lemma_replay_stops(rest, entries.len() as int, f);
    }
}

} // verus!
