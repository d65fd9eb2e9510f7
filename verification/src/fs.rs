//! The operations that a mount calls. Each answers with plain values, or with
//! the error number that goes back to the caller.

use crate::bytes;
use crate::content::{self, ReadFault};
use crate::disk::Disk;
use crate::ioctl::{self, TartineState};
use crate::pool::{self, Pool, PoolError};
use crate::proto::{
    InodeId, InodeMode, InodeRecord, InodeView, LocatorView, OpView, RedundancyScheme, ReplicaSlot, SchemeView,
};
use crate::store::{self, MetaState, MetaStoreError};
use crate::wire;
use crate::write_path::{self, WriteError, WriteKind};
use vstd::prelude::*;
use vstd::utf8::*;

verus! {

/// Why a call fails, by the name of its error number.
#[derive(Debug, Clone, Copy, PartialEq, Eq, Structural)]
pub enum Errno {
    EAGAIN,
    EALREADY,
    EEXIST,
    EFBIG,
    EINVAL,
    EIO,
    ENOENT,
    ENOSPC,
    ENOTTY,
    EOPNOTSUPP,
    EPERM,
}

#[derive(Debug, Clone, Copy, PartialEq, Eq, Structural)]
pub enum FileKind {
    Directory,
    RegularFile,
}

/// What a file's attributes say. Every time stamp is `mtime_unix`.
#[derive(Debug, Clone, Copy, PartialEq, Eq, Structural)]
pub struct FileAttr {
    pub ino: InodeId,
    pub size: u64,
    /// In units of 512 bytes.
    pub blocks: u64,
    pub mtime_unix: u64,
    pub kind: FileKind,
    pub perm: u16,
    pub nlink: u32,
    pub uid: u32,
    pub gid: u32,
    pub rdev: u32,
    pub blksize: u32,
    pub flags: u32,
}

/// One line of a directory listing. The listing goes on at `next`.
#[derive(Debug, PartialEq, Eq)]
pub struct DirEntry {
    pub ino: InodeId,
    pub next: u64,
    pub kind: FileKind,
    pub name: String,
}

// ---------------------------------------------------------------------
// Records

/// The state of a file as a control call reports it. A conversion is done in
/// one go, so all of the bytes count as converted.
pub open spec fn state_of(rec: InodeView) -> TartineState {
    TartineState {
        mode: write_path::mode_number(rec.mode),
        _pad: 0,
        bytes_total: rec.size,
        bytes_converted: rec.size,
    }
}

pub fn get_state(inode: &InodeRecord) -> (s: TartineState)
    ensures
        s == state_of(inode@),
{
    let mode: u32 = match inode.mode {
        InodeMode::AppendOnly => ioctl::TARTINE_MODE_APPEND_ONLY,
        InodeMode::Converting => ioctl::TARTINE_MODE_CONVERTING,
        InodeMode::Writable => ioctl::TARTINE_MODE_WRITABLE,
    };
    TartineState { mode, _pad: 0, bytes_total: inode.size, bytes_converted: inode.size }
}

/// The redundancy of a new file: two replicas anywhere, or one in a pool of
/// one disk.
pub open spec fn default_scheme(disks: nat) -> SchemeView {
    SchemeView::Replicated(
        Seq::new(
            if disks < 2 {
                disks
            } else {
                2
            },
            |i: int| ReplicaSlot::AnyOfClass(None),
        ),
    )
}

pub fn default_redundancy(disks: usize) -> (scheme: RedundancyScheme)
    ensures
        scheme@ == default_scheme(disks as nat),
{
    let n: usize = if disks < 2 {
        disks
    } else {
        2
    };
    let mut slots: Vec<ReplicaSlot> = Vec::new();
    let mut i: usize = 0;
    while i < n
        invariant
            i <= n <= 2,
            slots@ == Seq::new(i as nat, |j: int| ReplicaSlot::AnyOfClass(None)),
        decreases n - i,
    {
        slots.push(ReplicaSlot::AnyOfClass(None));
        i = i + 1;
        assert(slots@ =~= Seq::new(i as nat, |j: int| ReplicaSlot::AnyOfClass(None)));
    }
    RedundancyScheme::Replicated(slots)
}

/// The error number of a pool's error.
pub open spec fn errno_of(e: PoolError) -> Errno {
    match e {
        PoolError::NotFound => Errno::ENOENT,
        PoolError::WrongMode => Errno::EPERM,
        PoolError::Unplaceable => Errno::ENOSPC,
        PoolError::NoDisks => Errno::EINVAL,
        PoolError::Io(_) | PoolError::Meta(_) => Errno::EIO,
    }
}

pub fn errno_for(e: &PoolError) -> (n: Errno)
    ensures
        n == errno_of(*e),
{
    match e {
        PoolError::NotFound => Errno::ENOENT,
        PoolError::WrongMode => Errno::EPERM,
        PoolError::Unplaceable => Errno::ENOSPC,
        PoolError::NoDisks => Errno::EINVAL,
        PoolError::Io(_) | PoolError::Meta(_) => Errno::EIO,
    }
}

/// What a Unix mode makes of a file.
pub open spec fn kind_of(unix_mode: u32) -> FileKind {
    if unix_mode & pool::S_IFDIR == pool::S_IFDIR {
        FileKind::Directory
    } else {
        FileKind::RegularFile
    }
}

/// The attributes of a file.
pub open spec fn attr(rec: InodeView) -> FileAttr {
    FileAttr {
        ino: rec.inode,
        size: rec.size,
        blocks: ((rec.size + 511) / 512) as u64,
        mtime_unix: rec.mtime_unix,
        kind: kind_of(rec.unix_mode),
        perm: (rec.unix_mode & 0o7777) as u16,
        nlink: 1,
        uid: rec.uid,
        gid: rec.gid,
        rdev: 0,
        blksize: 4096,
        flags: 0,
    }
}

pub fn attr_of(rec: &InodeRecord) -> (a: FileAttr)
    ensures
        a == attr(rec@),
{
    let kind = if rec.unix_mode & pool::S_IFDIR == pool::S_IFDIR {
        FileKind::Directory
    } else {
        FileKind::RegularFile
    };
    let whole: u64 = rec.size / 512;
    let blocks: u64 = if rec.size % 512 == 0 {
        whole
    } else {
        whole + 1
    };
    FileAttr {
        ino: rec.inode,
        size: rec.size,
        blocks,
        mtime_unix: rec.mtime_unix,
        kind,
        perm: (rec.unix_mode & 0o7777) as u16,
        nlink: 1,
        uid: rec.uid,
        gid: rec.gid,
        rdev: 0,
        blksize: 4096,
        flags: 0,
    }
}

// ---------------------------------------------------------------------
// Answers, from what the pool came back with

/// The record that was asked for.
pub fn found_record(found: Result<Option<InodeRecord>, PoolError>) -> (r: Result<
    InodeRecord,
    Errno,
>)
    ensures
        match found {
            Ok(Some(rec)) => r == Ok::<InodeRecord, Errno>(rec),
            Ok(None) => r == Err::<InodeRecord, Errno>(Errno::ENOENT),
            Err(_) => r == Err::<InodeRecord, Errno>(Errno::EIO),
        },
{
    match found {
        Ok(Some(rec)) => Ok(rec),
        Ok(None) => Err(Errno::ENOENT),
        Err(_) => Err(Errno::EIO),
    }
}

/// The inode that an entry leads to.
pub fn found_entry(found: Result<Option<InodeId>, PoolError>) -> (r: Result<InodeId, Errno>)
    ensures
        match found {
            Ok(Some(child)) => r == Ok::<InodeId, Errno>(child),
            Ok(None) => r == Err::<InodeId, Errno>(Errno::ENOENT),
            Err(_) => r == Err::<InodeId, Errno>(Errno::EIO),
        },
{
    match found {
        Ok(Some(child)) => Ok(child),
        Ok(None) => Err(Errno::ENOENT),
        Err(_) => Err(Errno::EIO),
    }
}

/// The attributes of an inode that an entry leads to. That it is missing is a
/// fault of the storage.
pub fn linked_attr(found: Result<Option<InodeRecord>, PoolError>) -> (r: Result<FileAttr, Errno>)
    ensures
        match found {
            Ok(Some(rec)) => r == Ok::<FileAttr, Errno>(attr(rec@)),
            _ => r == Err::<FileAttr, Errno>(Errno::EIO),
        },
{
    match found {
        Ok(Some(rec)) => Ok(attr_of(&rec)),
        _ => Err(Errno::EIO),
    }
}

/// Whether a new entry would hide one that is there.
pub fn name_taken(found: &Result<Option<InodeId>, PoolError>) -> (yes: bool)
    ensures
        yes == (found matches Ok(Some(_))),
{
    match found {
        Ok(Some(_)) => true,
        _ => false,
    }
}

/// The kind that a listing gives an entry, from what a look at its inode came
/// back with.
pub open spec fn shown_kind(found: Result<Option<InodeRecord>, PoolError>) -> FileKind {
    match found {
        Ok(Some(rec)) => kind_of(rec@.unix_mode),
        _ => FileKind::RegularFile,
    }
}

pub fn listed_kind(found: &Result<Option<InodeRecord>, PoolError>) -> (kind: FileKind)
    ensures
        kind == shown_kind(*found),
{
    match found {
        Ok(Some(rec)) => attr_of(rec).kind,
        _ => FileKind::RegularFile,
    }
}

/// The answer to a conversion that was begun, or was not.
pub fn convert_answer(begun: &Result<(), PoolError>) -> (r: Result<(), Errno>)
    ensures
        r == (match begun {
            Ok(()) => Ok(()),
            Err(_) => Err(Errno::EALREADY),
        }),
{
    match begun {
        Ok(()) => Ok(()),
        Err(_) => Err(Errno::EALREADY),
    }
}

/// What a change of attributes is answered with.
pub open spec fn resize_answer(rec: InodeView, size: Option<u64>) -> Result<FileAttr, Errno> {
    if size is Some && size->0 != rec.size && rec.mode != InodeMode::Writable {
        Err(Errno::EPERM)
    } else {
        Ok(attr(rec))
    }
}

/// What a change of attributes comes to. Only a new size is looked at: it is
/// refused unless the file is writable or has that size.
pub fn resized(rec: &InodeRecord, size: Option<u64>) -> (r: Result<FileAttr, Errno>)
    ensures
        r == resize_answer(rec@, size),
{
    if let Some(new_size) = size {
        if new_size != rec.size && write_path::truncate_allowed(rec).is_err() {
            return Err(Errno::EPERM);
        }
    }
    Ok(attr_of(rec))
}

/// How a write of `len` bytes at `offset` is done, if it may be done. A write
/// that would end past what memory can address is too big.
pub open spec fn write_answer(rec: InodeView, offset: u64, len: nat) -> Result<WriteKind, Errno> {
    match write_path::write_kind(rec, offset) {
        Ok(WriteKind::Append) => Ok(WriteKind::Append),
        Ok(WriteKind::RandomWrite) => if offset + len > usize::MAX {
            Err(Errno::EFBIG)
        } else {
            Ok(WriteKind::RandomWrite)
        },
        Err(WriteError::ConversionInProgress) => Err(Errno::EAGAIN),
        Err(_) => Err(Errno::EPERM),
    }
}

pub fn plan_write(rec: &InodeRecord, offset: u64, len: usize) -> (r: Result<WriteKind, Errno>)
    ensures
        r == write_answer(rec@, offset, len as nat),
{
    match write_path::classify_write(rec, offset, len) {
        Ok(WriteKind::Append) => Ok(WriteKind::Append),
        Ok(WriteKind::RandomWrite) => {
            if offset as u128 + len as u128 > usize::MAX as u128 {
                Err(Errno::EFBIG)
            } else {
                Ok(WriteKind::RandomWrite)
            }
        },
        Err(WriteError::NotAppendOnlyOrder) | Err(WriteError::RandomWriteDenied) => Err(
            Errno::EPERM,
        ),
        Err(WriteError::ConversionInProgress) => Err(Errno::EAGAIN),
    }
}

// ---------------------------------------------------------------------
// Control calls

/// A control call.
pub enum Control {
    MakeWritable { wait: bool },
    GetState,
    SetRedundancy(RedundancyScheme),
    GetRedundancy,
}

pub enum ControlView {
    MakeWritable { wait: bool },
    GetState,
    SetRedundancy(SchemeView),
    GetRedundancy,
}

impl View for Control {
    type V = ControlView;

    open spec fn view(&self) -> ControlView {
        match self {
            Control::MakeWritable { wait } => ControlView::MakeWritable { wait: *wait },
            Control::GetState => ControlView::GetState,
            Control::SetRedundancy(scheme) => ControlView::SetRedundancy(scheme@),
            Control::GetRedundancy => ControlView::GetRedundancy,
        }
    }
}

/// What a command with its argument asks for.
pub open spec fn control(cmd: u32, arg: Seq<u8>) -> Result<ControlView, Errno> {
    if cmd == ioctl::TARTINE_IOC_MAKE_WRITABLE {
        if arg.len() < 4 {
            Err(Errno::EINVAL)
        } else {
            let flags = bytes::le_value(arg.subrange(0, 4)) as u32;
            Ok(
                ControlView::MakeWritable {
                    wait: flags & ioctl::TARTINE_CONVERT_FLAG_WAIT != 0,
                },
            )
        }
    } else if cmd == ioctl::TARTINE_IOC_GET_STATE {
        Ok(ControlView::GetState)
    } else if cmd == ioctl::TARTINE_IOC_SET_REDUNDANCY {
        match ioctl::scheme_of(arg) {
            Some(SchemeView::Replicated(slots)) => Ok(
                ControlView::SetRedundancy(SchemeView::Replicated(slots)),
            ),
            Some(SchemeView::ErasureCoded { .. }) => Err(Errno::EOPNOTSUPP),
            None => Err(Errno::EINVAL),
        }
    } else if cmd == ioctl::TARTINE_IOC_GET_REDUNDANCY {
        Ok(ControlView::GetRedundancy)
    } else {
        Err(Errno::ENOTTY)
    }
}

pub fn parse_control(cmd: u32, arg: &[u8]) -> (r: Result<Control, Errno>)
    ensures
        match control(cmd, arg@) {
            Ok(c) => r matches Ok(got) && got@ == c,
            Err(n) => r == Err::<Control, Errno>(n),
        },
{
    if cmd == ioctl::TARTINE_IOC_MAKE_WRITABLE {
        if arg.len() < 4 {
            return Err(Errno::EINVAL);
        }
        proof {
            bytes::lemma_pow256_values();
        }
        let flags: u32 = bytes::read_le(arg, 0, 4) as u32;
        Ok(Control::MakeWritable { wait: flags & ioctl::TARTINE_CONVERT_FLAG_WAIT != 0 })
    } else if cmd == ioctl::TARTINE_IOC_GET_STATE {
        Ok(Control::GetState)
    } else if cmd == ioctl::TARTINE_IOC_SET_REDUNDANCY {
        match ioctl::decode_set_redundancy(arg) {
            Some(RedundancyScheme::Replicated(slots)) => Ok(
                Control::SetRedundancy(RedundancyScheme::Replicated(slots)),
            ),
            Some(RedundancyScheme::ErasureCoded { .. }) => Err(Errno::EOPNOTSUPP),
            None => Err(Errno::EINVAL),
        }
    } else if cmd == ioctl::TARTINE_IOC_GET_REDUNDANCY {
        Ok(Control::GetRedundancy)
    } else {
        Err(Errno::ENOTTY)
    }
}

// ---------------------------------------------------------------------
// What the operations do to the pool

/// A write that succeeded: a chunk more, or the whole file anew.
pub open spec fn wrote<D: Disk>(
    before: Pool<D>,
    after: Pool<D>,
    ino: InodeId,
    offset: u64,
    data: Seq<u8>,
) -> bool {
    &&& before.state().inodes.dom().contains(ino)
    &&& match write_answer(before.state().inodes[ino], offset, data.len()) {
        Ok(WriteKind::Append) => after.grown(before, ino, data),
        Ok(WriteKind::RandomWrite) => {
            &&& before.file(ino) is Ok
            &&& after.rewritten(
                before,
                ino,
                content::overwritten(before.file(ino)->Ok_0, offset as int, data),
            )
        },
        Err(_) => false,
    }
}

/// An append that came back with an error of this number.
pub open spec fn append_refused<D: Disk>(
    before: Pool<D>,
    after: Pool<D>,
    ino: InodeId,
    data: Seq<u8>,
    n: Errno,
) -> bool {
    exists|e: PoolError| #[trigger]
        pool::append_failed(before, after, ino, data, e) && n == errno_of(e)
}

/// A rewrite that came back with an error of this number.
pub open spec fn rewrite_refused<D: Disk>(
    before: Pool<D>,
    after: Pool<D>,
    ino: InodeId,
    finish: bool,
    c: Seq<u8>,
    n: Errno,
) -> bool {
    exists|e: PoolError| #[trigger]
        pool::rewrite_failed(before, after, ino, finish, c, e) && n == errno_of(e)
}

/// What a write comes to. One that succeeds leaves the other files as they were,
/// and a file that was whole with the new bytes.
pub open spec fn writes<D: Disk>(
    before: Pool<D>,
    after: Pool<D>,
    ino: InodeId,
    offset: u64,
    data: Seq<u8>,
    r: Result<u32, Errno>,
) -> bool {
    let rec = before.state().inodes[ino];
    let c = content::overwritten(before.file(ino)->Ok_0, offset as int, data);
    match r {
        Ok(n) => {
            &&& n == data.len()
            &&& wrote(before, after, ino, offset, data)
            &&& after.others_kept(before, ino)
            &&& before.whole(ino) && pool::has_slots(rec.redundancy) ==> {
                &&& after.whole(ino)
                &&& before.file(ino) is Ok
                &&& after.file(ino) == Ok::<Seq<u8>, ReadFault>(c)
            }
            &&& before.settled() && pool::has_slots(rec.redundancy) ==> after.settled()
            &&& before.bounded() ==> after.bounded()
        },
        Err(n) => not_written(before, after, ino, offset, data, n),
    }
}

/// A write that did not succeed: the local tables failed, there is no such
/// file, its mode forbids the write, or the pool could not do it.
pub open spec fn not_written<D: Disk>(
    before: Pool<D>,
    after: Pool<D>,
    ino: InodeId,
    offset: u64,
    data: Seq<u8>,
    n: Errno,
) -> bool {
    ||| n == Errno::EIO && after == before
    ||| n == Errno::ENOENT && !before.state().inodes.dom().contains(ino) && after == before
    ||| before.state().inodes.dom().contains(ino) && match write_answer(
        before.state().inodes[ino],
        offset,
        data.len(),
    ) {
        Ok(WriteKind::Append) => append_refused(before, after, ino, data, n),
        Ok(WriteKind::RandomWrite) => rewrite_refused(
            before,
            after,
            ino,
            false,
            content::overwritten(before.file(ino)->Ok_0, offset as int, data),
            n,
        ),
        Err(m) => n == m && after == before,
    }
}

/// The operation of the metadata came back with an error.
pub open spec fn meta_refused<D: Disk>(before: Pool<D>, op: OpView, after: Pool<D>) -> bool {
    exists|e: PoolError| #[trigger] pool::meta_failed(before, op, after, e)
}

/// A redundancy scheme was not set: no disk of the pool can take one of its
/// slots, and nothing happened, or the operation of the metadata came back with
/// an error.
pub open spec fn scheme_refused<D: Disk>(
    before: Pool<D>,
    after: Pool<D>,
    ino: InodeId,
    scheme: SchemeView,
    n: Errno,
) -> bool {
    if pool::unsatisfiable(before.map().disks, scheme) {
        n == Errno::ENOSPC && after == before
    } else {
        n == Errno::EIO && meta_refused(
            before,
            OpView::SetRedundancyScheme { inode: ino, scheme },
            after,
        )
    }
}

/// The record of a file that a mount creates.
pub open spec fn regular_file(
    inode: InodeId,
    disks: nat,
    mode: u32,
    uid: u32,
    gid: u32,
    now_unix: u64,
) -> InodeView {
    pool::new_file(
        inode,
        default_scheme(disks),
        uid,
        gid,
        pool::S_IFREG | (mode & 0o7777),
        now_unix,
    )
}

/// What creating a file comes to: it is there and linked, and the other files
/// are as they were; or the storage failed on the way.
pub open spec fn creates<D: Disk>(
    before: Pool<D>,
    after: Pool<D>,
    parent: InodeId,
    name: Seq<char>,
    mode: u32,
    uid: u32,
    gid: u32,
    now_unix: u64,
    r: Result<FileAttr, Errno>,
) -> bool {
    let s = before.state();
    let rec = regular_file(s.next_inode, before.cursors().len(), mode, uid, gid, now_unix);
    let aim = pool::created(s, parent, name, rec);
    match r {
        Ok(a) => {
            &&& s.next_inode < u64::MAX
            &&& after.state() == aim
            &&& a == attr(rec)
            &&& after.file(rec.inode) == Ok::<Seq<u8>, ReadFault>(Seq::empty())
            &&& content::covered(before.data(), before.cursors()) ==> after.whole(rec.inode)
            &&& after.others_kept(before, rec.inode)
            &&& before.settled() ==> after.settled()
            &&& before.bounded() ==> after.bounded()
        },
        Err(n) => n == Errno::EIO && if s.next_inode == u64::MAX {
            after.state() == s
        } else {
            store::halfway(s, aim, after.state())
        },
    }
}

/// What creating a file comes to whose name was looked up.
pub open spec fn creates_unless_taken<D: Disk>(
    found: Result<Option<InodeId>, PoolError>,
    before: Pool<D>,
    after: Pool<D>,
    parent: InodeId,
    name: Seq<char>,
    mode: u32,
    uid: u32,
    gid: u32,
    now_unix: u64,
    r: Result<FileAttr, Errno>,
) -> bool {
    match found {
        Ok(Some(_)) => {
            &&& r == Err::<FileAttr, Errno>(Errno::EEXIST)
            &&& after == before
        },
        _ => creates(before, after, parent, name, mode, uid, gid, now_unix, r),
    }
}

/// What creating a file comes to.
pub open spec fn creates_or_refuses<D: Disk>(
    before: Pool<D>,
    after: Pool<D>,
    parent: InodeId,
    name: Seq<char>,
    mode: u32,
    uid: u32,
    gid: u32,
    now_unix: u64,
    r: Result<FileAttr, Errno>,
) -> bool {
    match r {
        Err(Errno::EEXIST) => {
            &&& before.state().dirs.dom().contains((parent, name))
            &&& after == before
        },
        _ => creates(before, after, parent, name, mode, uid, gid, now_unix, r),
    }
}

/// What removing a name comes to.
pub open spec fn unlinks<D: Disk>(
    before: Pool<D>,
    after: Pool<D>,
    parent: InodeId,
    name: Seq<char>,
    r: Result<(), Errno>,
) -> bool {
    let op = OpView::Unlink { parent, name };
    &&& after.same_disks(before)
    &&& match r {
        Ok(()) => after.stepped(before, op),
        Err(n) => n == Errno::EIO && meta_refused(before, op, after),
    }
}

/// What setting the redundancy of a file comes to.
pub open spec fn sets_redundancy<D: Disk>(
    before: Pool<D>,
    after: Pool<D>,
    ino: InodeId,
    scheme: SchemeView,
    r: Result<(), Errno>,
) -> bool {
    &&& after.same_disks(before)
    &&& match r {
        Ok(()) => after.stepped(before, OpView::SetRedundancyScheme { inode: ino, scheme }),
        Err(n) => scheme_refused(before, after, ino, scheme, n),
    }
}

/// What a change of attributes comes to.
pub open spec fn sets_attr(
    s: MetaState,
    ino: InodeId,
    size: Option<u64>,
    r: Result<FileAttr, Errno>,
) -> bool {
    let answer = resize_answer(s.inodes[ino], size);
    match r {
        Ok(a) => s.inodes.dom().contains(ino) && answer == Ok::<FileAttr, Errno>(a),
        Err(n) => {
            ||| n == Errno::EIO
            ||| n == Errno::ENOENT && !s.inodes.dom().contains(ino)
            ||| s.inodes.dom().contains(ino) && answer == Err::<FileAttr, Errno>(n)
        },
    }
}

/// What reading a directory comes to.
pub open spec fn reads_dir(
    s: MetaState,
    ino: InodeId,
    offset: u64,
    r: Result<Vec<DirEntry>, Errno>,
) -> bool {
    match r {
        Ok(lines) => lists(s, ino, offset, lines@),
        Err(n) => n == Errno::EIO,
    }
}

/// What a look at a name is answered with.
pub open spec fn looks_up(
    s: MetaState,
    parent: InodeId,
    name: Seq<char>,
    r: Result<FileAttr, Errno>,
) -> bool {
    match r {
        Ok(a) => {
            &&& s.dirs.dom().contains((parent, name))
            &&& s.inodes.dom().contains(s.dirs[(parent, name)])
            &&& a == attr(s.inodes[s.dirs[(parent, name)]])
        },
        Err(n) => n == Errno::EIO || n == Errno::ENOENT && !s.dirs.dom().contains((parent, name)),
    }
}

/// What a look at an inode is answered with.
pub open spec fn gets_attr(s: MetaState, ino: InodeId, r: Result<FileAttr, Errno>) -> bool {
    match r {
        Ok(a) => s.inodes.dom().contains(ino) && a == attr(s.inodes[ino]),
        Err(n) => n == Errno::EIO || n == Errno::ENOENT && !s.inodes.dom().contains(ino),
    }
}

/// The file is converting, and nothing else happened.
pub open spec fn began<D: Disk>(before: Pool<D>, after: Pool<D>, ino: InodeId) -> bool {
    &&& after.wf()
    &&& after.same_disks(before)
    &&& after.stepped(before, OpView::BeginConvert { inode: ino })
}

/// The conversion was begun and finished.
pub open spec fn began_and_finished<D: Disk>(
    before: Pool<D>,
    after: Pool<D>,
    ino: InodeId,
) -> bool {
    exists|mid: Pool<D>| #[trigger]
        began(before, mid, ino) && mid.file(ino) is Ok && after.converted(
            mid,
            ino,
            mid.file(ino)->Ok_0,
        )
}

/// What a conversion comes to. One that succeeds leaves the other files as they
/// were, and a file that was whole with the bytes that it had.
pub open spec fn makes_writable<D: Disk>(
    before: Pool<D>,
    after: Pool<D>,
    ino: InodeId,
    wait: bool,
    r: Result<(), Errno>,
) -> bool {
    let placed = wait ==> pool::has_slots(before.state().inodes[ino].redundancy);
    match r {
        Ok(()) => {
            &&& if wait {
                began_and_finished(before, after, ino)
            } else {
                began(before, after, ino)
            }
            &&& before.state().inodes.dom().contains(ino)
            &&& before.state().inodes[ino].mode == InodeMode::AppendOnly
            &&& after.state().inodes[ino].mode == if wait {
                InodeMode::Writable
            } else {
                InodeMode::Converting
            }
            &&& after.others_kept(before, ino)
            &&& before.whole(ino) && placed ==> {
                &&& after.whole(ino)
                &&& after.file(ino) == before.file(ino)
            }
            &&& before.settled() && placed ==> after.settled()
            &&& before.bounded() ==> after.bounded()
        },
        Err(n) => {
            ||| n == Errno::EALREADY && after.same_disks(before) && meta_refused(
                before,
                OpView::BeginConvert { inode: ino },
                after,
            )
            ||| wait && began_only(before, after, ino, n)
        },
    }
}

/// The conversion was begun, and finishing it came back with an error of this
/// number: the local tables failed, or the pool could not do it.
pub open spec fn began_only<D: Disk>(
    before: Pool<D>,
    after: Pool<D>,
    ino: InodeId,
    n: Errno,
) -> bool {
    exists|mid: Pool<D>| #[trigger]
        began(before, mid, ino) && (n == Errno::EIO && after == mid || rewrite_refused(
            mid,
            after,
            ino,
            true,
            mid.file(ino)->Ok_0,
            n,
        ))
}

/// Position `at` of the listing of a directory with the entries `list`, of the
/// kinds `kinds`: the directory itself twice, and the entries.
pub open spec fn line_of(
    ino: InodeId,
    list: Seq<(String, InodeId)>,
    kinds: Seq<FileKind>,
    at: int,
    e: DirEntry,
) -> bool {
    &&& e.next == at + 1
    &&& if at < 2 {
        &&& e.ino == ino
        &&& e.kind == FileKind::Directory
        &&& e.name@ == if at == 0 {
            "."@
        } else {
            ".."@
        }
    } else {
        &&& e.ino == list[at - 2].1
        &&& e.name@ == list[at - 2].0@
        &&& e.kind == kinds[at - 2]
    }
}

/// `lines` is the listing of a directory from position `offset` on.
pub open spec fn lines_of(
    ino: InodeId,
    list: Seq<(String, InodeId)>,
    kinds: Seq<FileKind>,
    offset: u64,
    lines: Seq<DirEntry>,
) -> bool {
    &&& lines.len() == if offset < list.len() + 2 {
        list.len() + 2 - offset
    } else {
        0
    }
    &&& forall|i: int|
        0 <= i < lines.len() ==> line_of(ino, list, kinds, offset + i, #[trigger] lines[i])
}

/// The lines of a directory listing from position `offset` on.
pub fn directory_lines(
    ino: InodeId,
    list: &Vec<(String, InodeId)>,
    kinds: &Vec<FileKind>,
    offset: u64,
) -> (lines: Vec<DirEntry>)
    requires
        kinds@.len() == list@.len(),
        list@.len() <= usize::MAX - 2,
    ensures
        lines_of(ino, list@, kinds@, offset, lines@),
{
    let mut lines: Vec<DirEntry> = Vec::new();
    let total: usize = list.len() + 2;
    let mut at: usize = if offset < total as u64 {
        offset as usize
    } else {
        total
    };
    let ghost start = at;
    while at < total
        invariant
            kinds@.len() == list@.len(),
            total == list@.len() + 2,
            start <= at <= total,
            start == offset || at == total && lines@.len() == 0 && offset >= total,
            lines@.len() == at - start,
            forall|j: int|
                0 <= j < lines@.len() ==> line_of(
                    ino,
                    list@,
                    kinds@,
                    start + j,
                    #[trigger] lines@[j],
                ),
        decreases total - at,
    {
        let next: u64 = (at + 1) as u64;
        let line = if at == 0 {
            DirEntry { ino, next, kind: FileKind::Directory, name: ".".to_string() }
        } else if at == 1 {
            DirEntry { ino, next, kind: FileKind::Directory, name: "..".to_string() }
        } else {
            DirEntry {
                ino: list[at - 2].1,
                next,
                kind: kinds[at - 2],
                name: list[at - 2].0.clone(),
            }
        };
        lines.push(line);
        at = at + 1;
    }
    lines
}

/// `found` is what a look at an inode may come back with.
pub open spec fn may_find(
    s: MetaState,
    ino: InodeId,
    found: Result<Option<InodeRecord>, PoolError>,
) -> bool {
    match found {
        Ok(Some(rec)) => s.inodes.dom().contains(ino) && rec@ == s.inodes[ino],
        Ok(None) => !s.inodes.dom().contains(ino),
        Err(PoolError::Meta(MetaStoreError::Redb(_))) => true,
        Err(_) => false,
    }
}

/// The kind of an inode, as a look at it shows it. One that the local tables
/// fail to give is shown as a regular file.
pub open spec fn shows(s: MetaState, ino: InodeId, kind: FileKind) -> bool {
    exists|found: Result<Option<InodeRecord>, PoolError>| #[trigger]
        may_find(s, ino, found) && kind == shown_kind(found)
}

/// `lines` is what a directory listing gives from position `offset` on.
pub open spec fn lists(s: MetaState, ino: InodeId, offset: u64, lines: Seq<DirEntry>) -> bool {
    exists|list: Seq<(String, InodeId)>, kinds: Seq<FileKind>|
        store::is_listing(s.dirs, ino, list) && kinds.len() == list.len() && (forall|i: int|
            0 <= i < list.len() ==> shows(s, (#[trigger] list[i]).1, kinds[i]))
            && #[trigger] lines_of(ino, list, kinds, offset, lines)
}

// ---------------------------------------------------------------------
// The filesystem

/// A mounted pool.
pub struct TartineFs<D: Disk> {
    pool: Pool<D>,
}

impl<D: Disk> TartineFs<D> {
    pub closed spec fn pool(self) -> Pool<D> {
        self.pool
    }

    pub open spec fn wf(self) -> bool {
        self.pool().wf()
    }

    pub fn new(pool: Pool<D>) -> (fs: Self)
        ensures
            fs.pool() == pool,
    {
        TartineFs { pool }
    }

    /// The attributes of the entry `name` of a directory. Where the local
    /// tables fail, or the entry leads nowhere, the answer is `EIO`.
    pub fn lookup(&self, parent: InodeId, name: &str) -> (r: Result<FileAttr, Errno>)
        requires
            self.wf(),
        ensures
            looks_up(self.pool().state(), parent, name@, r),
    {
        let child: u64 = match found_entry(self.pool.lookup(parent, name)) {
            Ok(child) => child,
            Err(n) => {
                return Err(n);
            },
        };
        linked_attr(self.pool.get_inode(child))
    }

    /// The attributes of an inode.
    pub fn getattr(&self, ino: InodeId) -> (r: Result<FileAttr, Errno>)
        requires
            self.wf(),
        ensures
            gets_attr(self.pool().state(), ino, r),
    {
        match found_record(self.pool.get_inode(ino)) {
            Ok(rec) => Ok(attr_of(&rec)),
            Err(n) => Err(n),
        }
    }

    /// A change of attributes: a truncation that the file's mode forbids is
    /// refused, and anything else is answered with the attributes as they are.
    pub fn setattr(&self, ino: InodeId, size: Option<u64>) -> (r: Result<FileAttr, Errno>)
        requires
            self.wf(),
        ensures
            sets_attr(self.pool().state(), ino, size, r),
    {
        match found_record(self.pool.get_inode(ino)) {
            Ok(rec) => resized(&rec, size),
            Err(n) => Err(n),
        }
    }

    /// Creates a regular file with the permission bits of `mode`. A name that is
    /// there is refused; one that the local tables fail to look up is not.
    pub fn create(
        &mut self,
        parent: InodeId,
        name: &str,
        mode: u32,
        uid: u32,
        gid: u32,
        now_unix: u64,
    ) -> (r: Result<FileAttr, Errno>)
        requires
            old(self).wf(),
            encode_utf8(name@).len() <= u32::MAX,
        ensures
            final(self).wf(),
            final(self).pool().same_disks(old(self).pool()),
            creates_or_refuses(
                old(self).pool(),
                final(self).pool(),
                parent,
                name@,
                mode,
                uid,
                gid,
                now_unix,
                r,
            ),
    {
        let found = self.pool.lookup(parent, name);
        self.create_unless_taken(found, parent, name, mode, uid, gid, now_unix)
    }

    /// Creates a regular file, unless the look-up of its name came back with an
    /// entry.
    pub fn create_unless_taken(
        &mut self,
        found: Result<Option<InodeId>, PoolError>,
        parent: InodeId,
        name: &str,
        mode: u32,
        uid: u32,
        gid: u32,
        now_unix: u64,
    ) -> (r: Result<FileAttr, Errno>)
        requires
            old(self).wf(),
            encode_utf8(name@).len() <= u32::MAX,
        ensures
            final(self).wf(),
            final(self).pool().same_disks(old(self).pool()),
            creates_unless_taken(
                found,
                old(self).pool(),
                final(self).pool(),
                parent,
                name@,
                mode,
                uid,
                gid,
                now_unix,
                r,
            ),
    {
        if name_taken(&found) {
            return Err(Errno::EEXIST);
        }
        let scheme = default_redundancy(self.pool.disk_count());
        match self.pool.create_file(
            parent,
            name,
            scheme,
            uid,
            gid,
            pool::S_IFREG | (mode & 0o7777),
            now_unix,
        ) {
            Ok(inode) => linked_attr(self.pool.get_inode(inode)),
            Err(e) => Err(errno_for(&e)),
        }
    }

    /// Removes a directory entry, if it is there.
    pub fn unlink(&mut self, parent: InodeId, name: &str) -> (r: Result<(), Errno>)
        requires
            old(self).wf(),
            encode_utf8(name@).len() <= u32::MAX,
        ensures
            final(self).wf(),
            unlinks(old(self).pool(), final(self).pool(), parent, name@, r),
    {
        match self.pool.unlink(parent, name) {
            Ok(()) => Ok(()),
            Err(e) => Err(errno_for(&e)),
        }
    }

    /// Reads up to `size` bytes of a file from `offset` on.
    pub fn read(&self, ino: InodeId, offset: u64, size: u32) -> (r: Result<Vec<u8>, Errno>)
        requires
            self.wf(),
        ensures
            reads(self.pool(), ino, offset, size, r),
    {
        match self.pool.read(ino, offset, size as usize) {
            Ok(v) => Ok(v),
            Err(e) => {
                assert(pool::load_failed(self.pool(), ino, e));
                Err(errno_for(&e))
            },
        }
    }

    /// Writes `data` at `offset`: an append where the file's mode takes no
    /// other write, and otherwise a rewrite of the file.
    pub fn write(&mut self, ino: InodeId, offset: u64, data: &[u8]) -> (r: Result<u32, Errno>)
        requires
            old(self).wf(),
        ensures
            final(self).pool().went_on(old(self).pool()),
            writes(old(self).pool(), final(self).pool(), ino, offset, data@, r),
    {
        let ghost before = self.pool;
        let rec = match found_record(self.pool.get_inode(ino)) {
            Ok(rec) => rec,
            Err(n) => {
                return Err(n);
            },
        };
        proof {
            if before.whole(ino) {
                content::settled_content(
                    before.data(),
                    before.data(),
                    before.cursors(),
                    rec@,
                );
            }
        }
        let done = match plan_write(&rec, offset, data.len()) {
            Ok(WriteKind::Append) => self.pool.append(ino, vstd::slice::slice_to_vec(data)),
            Ok(WriteKind::RandomWrite) => self.pool.write(ino, offset, data),
            Err(n) => {
                return Err(n);
            },
        };
        match done {
            Ok(()) => {
                proof {
                    if before.whole(ino) && rec@.mode != InodeMode::Writable {
                        content::writing_at_the_end_appends(before.file(ino)->Ok_0, data@);
                    }
                }
                Ok(data.len() as u32)
            },
            Err(e) => {
                proof {
                    if rec@.mode == InodeMode::Writable {
                        assert(pool::no_look_up(before, self.pool, Err(e)) || pool::rewrite_failed(
                            before,
                            self.pool,
                            ino,
                            false,
                            content::overwritten(before.file(ino)->Ok_0, offset as int, data@),
                            e,
                        ));
                    } else {
                        assert(pool::no_look_up(before, self.pool, Err(e)) || pool::append_failed(
                            before,
                            self.pool,
                            ino,
                            data@,
                            e,
                        ));
                    }
                }
                Err(errno_for(&e))
            },
        }
    }

    /// The listing of a directory from position `offset` on.
    pub fn readdir(&self, ino: InodeId, offset: u64) -> (r: Result<Vec<DirEntry>, Errno>)
        requires
            self.wf(),
        ensures
            reads_dir(self.pool().state(), ino, offset, r),
    {
        let list = match self.pool.readdir(ino) {
            Ok(list) => list,
            Err(_) => {
                return Err(Errno::EIO);
            },
        };
        let mut kinds: Vec<FileKind> = Vec::new();
        let ghost s = self.pool().state();
        let mut i: usize = 0;
        while i < list.len()
            invariant
                self.wf(),
                s == self.pool().state(),
                i <= list@.len(),
                kinds@.len() == i,
                forall|k: int| 0 <= k < i ==> shows(s, (#[trigger] list@[k]).1, kinds@[k]),
            decreases list@.len() - i,
        {
            let found = self.pool.get_inode(list[i].1);
            assert(may_find(s, list@[i as int].1, found));
            kinds.push(listed_kind(&found));
            i = i + 1;
        }
        if list.len() > usize::MAX - 2 {
            return Err(Errno::EIO);
        }
        let lines = directory_lines(ino, &list, &kinds, offset);
        assert(lines_of(ino, list@, kinds@, offset, lines@));
        Ok(lines)
    }

    /// Starts the conversion of a file, and with `wait` finishes it.
    pub fn make_writable(&mut self, ino: InodeId, wait: bool) -> (r: Result<(), Errno>)
        requires
            old(self).wf(),
        ensures
            final(self).pool().went_on(old(self).pool()),
            makes_writable(old(self).pool(), final(self).pool(), ino, wait, r),
    {
        let ghost before = self.pool;
        proof {
            before.meta().records_are_under_their_own_number();
        }
        let begun = self.pool.begin_convert(ino);
        match convert_answer(&begun) {
            Ok(()) => {},
            Err(n) => {
                assert(pool::meta_failed(
                    before,
                    OpView::BeginConvert { inode: ino },
                    self.pool,
                    begun->Err_0,
                ));
                return Err(n);
            },
        }
        let ghost mid = self.pool;
        proof {
            assert(began(before, mid, ino));
            assert forall|k: InodeId| before.state().inodes.dom().contains(k) implies #[trigger]
                mid.file(k) == before.file(k) && (before.whole(k) ==> mid.whole(k)) by {
                pool::metadata_changes_keep_files(
                    before,
                    mid,
                    OpView::BeginConvert { inode: ino },
                    k,
                );
            }
            pool::metadata_changes_keep_files(
                before,
                mid,
                OpView::BeginConvert { inode: ino },
                ino,
            );
        }
        if !wait {
            return Ok(());
        }
        match self.pool.complete_convert(ino) {
            Ok(()) => Ok(()),
            Err(e) => {
                assert(pool::no_look_up(mid, self.pool, Err(e)) || pool::rewrite_failed(
                    mid,
                    self.pool,
                    ino,
                    true,
                    mid.file(ino)->Ok_0,
                    e,
                ));
                Err(errno_for(&e))
            },
        }
    }

    /// Changes the redundancy of a file.
    pub fn set_redundancy(&mut self, ino: InodeId, scheme: RedundancyScheme) -> (r: Result<
        (),
        Errno,
    >)
        requires
            old(self).wf(),
            wire::scheme_fits(scheme@),
        ensures
            final(self).wf(),
            sets_redundancy(old(self).pool(), final(self).pool(), ino, scheme@, r),
    {
        match self.pool.set_redundancy(ino, scheme) {
            Ok(()) => Ok(()),
            Err(e) => Err(errno_for(&e)),
        }
    }

    /// A control call on a file: the bytes that it answers with.
    pub fn ioctl(&mut self, ino: InodeId, cmd: u32, arg: &[u8]) -> (r: Result<Vec<u8>, Errno>)
        requires
            old(self).wf(),
        ensures
            final(self).pool().went_on(old(self).pool()),
            controlled(old(self).pool(), final(self).pool(), ino, control(cmd, arg@), r),
    {
        match parse_control(cmd, arg) {
            Err(n) => Err(n),
            Ok(Control::MakeWritable { wait }) => match self.make_writable(ino, wait) {
                Ok(()) => Ok(Vec::new()),
                Err(n) => Err(n),
            },
            Ok(Control::GetState) => match found_record(self.pool.get_inode(ino)) {
                Ok(rec) => {
                    let image = get_state(&rec).to_bytes();
                    Ok(vstd::slice::slice_to_vec(image.as_slice()))
                },
                Err(n) => Err(n),
            },
            Ok(Control::SetRedundancy(scheme)) => match self.set_redundancy(ino, scheme) {
                Ok(()) => Ok(Vec::new()),
                Err(n) => Err(n),
            },
            Ok(Control::GetRedundancy) => match found_record(self.pool.get_inode(ino)) {
                Ok(rec) => {
                    let image = ioctl::encode_set_redundancy(&rec.redundancy);
                    Ok(vstd::slice::slice_to_vec(image.as_slice()))
                },
                Err(n) => Err(n),
            },
        }
    }
}

/// What a read is answered with.
pub open spec fn reads<D: Disk>(
    p: Pool<D>,
    ino: InodeId,
    offset: u64,
    size: u32,
    r: Result<Vec<u8>, Errno>,
) -> bool {
    match r {
        Ok(v) => {
            &&& p.state().inodes.dom().contains(ino)
            &&& p.file(ino) is Ok
            &&& v@ == content::window(p.file(ino)->Ok_0, offset as int, size as int)
        },
        Err(n) => not_read(p, ino, n),
    }
}

/// A read that came back with an error of this number.
pub open spec fn not_read<D: Disk>(p: Pool<D>, ino: InodeId, n: Errno) -> bool {
    exists|e: PoolError| #[trigger] pool::load_failed(p, ino, e) && n == errno_of(e)
}

/// What a control call did and answered.
pub open spec fn controlled<D: Disk>(
    before: Pool<D>,
    after: Pool<D>,
    ino: InodeId,
    c: Result<ControlView, Errno>,
    r: Result<Vec<u8>, Errno>,
) -> bool {
    let there = before.state().inodes.dom().contains(ino);
    let rec = before.state().inodes[ino];
    match c {
        Err(n) => r == Err::<Vec<u8>, Errno>(n) && after == before,
        Ok(ControlView::MakeWritable { wait }) => match r {
            Ok(v) => v@.len() == 0 && makes_writable(before, after, ino, wait, Ok(())),
            Err(n) => makes_writable(before, after, ino, wait, Err(n)),
        },
        Ok(ControlView::GetState) => after == before && match r {
            Ok(v) => there && v@ == ioctl::state_image(state_of(rec)),
            Err(n) => n == Errno::EIO || n == Errno::ENOENT && !there,
        },
        Ok(ControlView::SetRedundancy(scheme)) => match r {
            Ok(v) => v@.len() == 0 && sets_redundancy(before, after, ino, scheme, Ok(())),
            Err(n) => sets_redundancy(before, after, ino, scheme, Err(n)),
        },
        Ok(ControlView::GetRedundancy) => after == before && match r {
            Ok(v) => there && v@ == ioctl::scheme_image(rec.redundancy),
            Err(n) => n == Errno::EIO || n == Errno::ENOENT && !there,
        },
    }
}

// ---------------------------------------------------------------------
// Laws

/// As long as a file is not writable, a write that is accepted leaves every
/// byte that is there.
pub proof fn an_unconverted_file_only_grows(rec: InodeView, c: Seq<u8>, offset: u64, data: Seq<u8>)
    requires
        rec.mode != InodeMode::Writable,
        c.len() == rec.size,
        write_answer(rec, offset, data.len()) is Ok,
    ensures
        content::overwritten(c, offset as int, data) == c + data,
{
    content::writing_at_the_end_appends(c, data);
}

/// The redundancy that a control call sets is the one that the next answers
/// with.
pub proof fn redundancy_reads_back<D: Disk>(
    before: Pool<D>,
    after: Pool<D>,
    ino: InodeId,
    arg: Seq<u8>,
    set: Vec<u8>,
    got: Vec<u8>,
)
    requires
        before.wf(),
        controlled(
            before,
            after,
            ino,
            control(ioctl::TARTINE_IOC_SET_REDUNDANCY, arg),
            Ok(set),
        ),
        controlled(after, after, ino, Ok(ControlView::GetRedundancy), Ok(got)),
    ensures
        ioctl::scheme_of(arg) is Some,
        ioctl::scheme_of(got@) == ioctl::scheme_of(arg),
{
    before.meta().records_are_under_their_own_number();
    let scheme = ioctl::scheme_of(arg)->0;
    assert(after.state().inodes[ino].redundancy == scheme);
    ioctl::image_round_trip(scheme);
}

/// A file that a control call made writable, waiting for it, is reported as
/// writable, and the whole of it as converted.
pub proof fn a_finished_conversion_shows<D: Disk>(
    before: Pool<D>,
    after: Pool<D>,
    ino: InodeId,
    done: Vec<u8>,
    got: Vec<u8>,
)
    requires
        before.wf(),
        controlled(
            before,
            after,
            ino,
            Ok(ControlView::MakeWritable { wait: true }),
            Ok(done),
        ),
        controlled(after, after, ino, Ok(ControlView::GetState), Ok(got)),
    ensures
        got@ == ioctl::state_image(
            TartineState {
                mode: ioctl::TARTINE_MODE_WRITABLE,
                _pad: 0,
                bytes_total: before.state().inodes[ino].size,
                bytes_converted: before.state().inodes[ino].size,
            },
        ),
{
    before.meta().records_are_under_their_own_number();
    let mid = choose|mid: Pool<D>| #[trigger]
        began(before, mid, ino) && mid.file(ino) is Ok && after.converted(
            mid,
            ino,
            mid.file(ino)->Ok_0,
        );
    mid.meta().records_are_under_their_own_number();
}

/// The attributes of a file are those of its record: its number, owner, time and
/// permission bits, and as many blocks of 512 bytes as its size fills.
pub proof fn attributes_tell_the_record(rec: InodeView)
    ensures
        ({
            let a = attr(rec);
            &&& a.ino == rec.inode
            &&& a.size == rec.size
            &&& a.size <= 512 * a.blocks && 512 * a.blocks < a.size + 512
            &&& a.perm == rec.unix_mode % 4096
            &&& a.uid == rec.uid && a.gid == rec.gid && a.mtime_unix == rec.mtime_unix
            &&& a.kind == FileKind::Directory <==> (rec.unix_mode / 16384) % 2 == 1
            &&& a.nlink == 1 && a.rdev == 0 && a.flags == 0 && a.blksize == 4096
        }),
{
    let m = rec.unix_mode;
    assert(m & 0o7777 == m % 4096) by (bit_vector);
    assert((m & 0o040000 == 0o040000) <==> ((m / 16384) % 2 == 1)) by (bit_vector);
}

/// The size that a file is shown with is the length of what it reads as, in every
/// mode.
pub proof fn a_file_is_shown_as_long_as_it_is<D: Disk>(p: Pool<D>, ino: InodeId)
    requires
        p.wf(),
        p.whole(ino),
    ensures
        p.file(ino) matches Ok(c) && attr(p.state().inodes[ino]).size == c.len(),
        attr(p.state().inodes[ino]).ino == ino,
        state_of(p.state().inodes[ino]).bytes_total == p.file(ino)->Ok_0.len(),
{
    p.meta().records_are_under_their_own_number();
    content::settled_content(p.data(), p.data(), p.cursors(), p.state().inodes[ino]);
}

/// A write that succeeds writes all of its bytes where it says, and the file is
/// then shown as long as it was or as far as the write reaches. Nothing else of
/// the file changes, and no other file does.
pub proof fn a_write_does_what_it_says<D: Disk>(
    before: Pool<D>,
    after: Pool<D>,
    ino: InodeId,
    offset: u64,
    data: Seq<u8>,
    slots: Seq<ReplicaSlot>,
    n: u32,
    other: InodeId,
)
    requires
        before.wf(),
        after.wf(),
        writes(before, after, ino, offset, data, Ok(n)),
        before.whole(ino),
        before.state().inodes[ino].redundancy == SchemeView::Replicated(slots),
        slots.len() > 0,
    ensures
        n == data.len(),
        after.whole(ino),
        ({
            let was = before.file(ino)->Ok_0;
            let now = after.file(ino)->Ok_0;
            let a = attr(before.state().inodes[ino]);
            let b = attr(after.state().inodes[ino]);
            &&& before.file(ino) is Ok && after.file(ino) is Ok
            &&& b.size == now.len()
            &&& offset + data.len() <= was.len() ==> b.size == was.len()
            &&& offset + data.len() > was.len() ==> b.size == offset + data.len()
            &&& forall|i: int| 0 <= i < data.len() ==> #[trigger] now[offset + i] == data[i]
            &&& forall|i: int|
                0 <= i < was.len() && (i < offset || offset + data.len() <= i)
                    ==> #[trigger] now[i] == was[i]
            &&& forall|i: int| was.len() <= i < offset ==> #[trigger] now[i] == 0
            &&& b.ino == a.ino && b.perm == a.perm && b.kind == a.kind && b.uid == a.uid && b.gid
                == a.gid
        }),
        after.state().inodes[ino].mode == before.state().inodes[ino].mode,
        before.state().inodes[ino].mode != InodeMode::Writable ==> offset
            == before.state().inodes[ino].size,
        after.state().dirs == before.state().dirs,
        other != ino && before.whole(other) ==> after.whole(other) && after.file(other)
            == before.file(other),
        other != ino && before.state().inodes.dom().contains(other)
            ==> after.state().inodes[other] == before.state().inodes[other],
{
    before.meta().records_are_under_their_own_number();
    content::a_write_changes_what_it_names(before.file(ino)->Ok_0, offset as nat, data);
    a_file_is_shown_as_long_as_it_is(before, ino);
    a_file_is_shown_as_long_as_it_is(after, ino);
}

/// A write to a writable file is never refused for where it starts: as long as it
/// ends at an offset that can be had, only the storage or want of space can stand
/// in the way, or that what the file points to is not there.
pub proof fn a_writable_file_takes_every_write<D: Disk>(
    before: Pool<D>,
    after: Pool<D>,
    ino: InodeId,
    offset: u64,
    data: Seq<u8>,
    r: Result<u32, Errno>,
)
    requires
        writes(before, after, ino, offset, data, r),
        before.state().inodes.dom().contains(ino),
        before.state().inodes[ino].mode == InodeMode::Writable,
        offset + data.len() <= usize::MAX,
    ensures
        write_answer(before.state().inodes[ino], offset, data.len()) == Ok::<WriteKind, Errno>(
            WriteKind::RandomWrite,
        ),
        r matches Err(n) ==> {
            &&& n == Errno::EIO || n == Errno::ENOSPC || n == Errno::ENOENT
            &&& before.whole(ino) ==> n != Errno::ENOENT
        },
{
    if let Err(n) = r {
        let c = content::overwritten(before.file(ino)->Ok_0, offset as int, data);
        if before.whole(ino) {
            content::settled_content(
                before.data(),
                before.data(),
                before.cursors(),
                before.state().inodes[ino],
            );
        }
        if !(n == Errno::EIO && after == before) {
            let e = choose|e: PoolError| #[trigger]
                pool::rewrite_failed(before, after, ino, false, c, e) && n == errno_of(e);
            assert(pool::rewrite_failed(before, after, ino, false, c, e));
        }
    }
}

/// A write to a file that is not writable is taken at its end, and anywhere else
/// refused without a trace: for good while the file is append-only, for now while
/// it is converting.
pub proof fn other_files_take_writes_at_their_end<D: Disk>(
    before: Pool<D>,
    after: Pool<D>,
    ino: InodeId,
    offset: u64,
    data: Seq<u8>,
    r: Result<u32, Errno>,
)
    requires
        writes(before, after, ino, offset, data, r),
        before.state().inodes.dom().contains(ino),
        before.state().inodes[ino].mode != InodeMode::Writable,
    ensures
        offset == before.state().inodes[ino].size ==> write_answer(
            before.state().inodes[ino],
            offset,
            data.len(),
        ) == Ok::<WriteKind, Errno>(WriteKind::Append),
        offset != before.state().inodes[ino].size ==> {
            &&& after == before
            &&& r matches Err(n) && (n == Errno::EIO || n == if before.state().inodes[ino].mode
                == InodeMode::AppendOnly {
                Errno::EPERM
            } else {
                Errno::EAGAIN
            })
        },
{
}

/// A write is owed where the file takes it, as many disks as replicas have room,
/// no count overflows and the log has half a kilobyte left: the answer is then
/// success or `EIO`.
pub proof fn a_write_is_owed<D: Disk>(
    before: Pool<D>,
    after: Pool<D>,
    ino: InodeId,
    offset: u64,
    data: Seq<u8>,
    slots: Seq<ReplicaSlot>,
    able: Seq<u128>,
    r: Result<u32, Errno>,
)
    requires
        before.wf(),
        writes(before, after, ino, offset, data, r),
        before.whole(ino),
        before.state().inodes[ino].redundancy == SchemeView::Replicated(slots),
        forall|k: int|
            0 <= k < slots.len() ==> #[trigger] slots[k] == ReplicaSlot::AnyOfClass(None),
        slots.len() <= able.len(),
        pool::all_able(
            before,
            able,
            28 + before.state().inodes[ino].size + offset + data.len() as int,
        ),
        before.state().inodes[ino].mode == InodeMode::Writable || offset
            == before.state().inodes[ino].size && (
        before.state().inodes[ino].data matches LocatorView::ChunkLog(chunks) && chunks.len()
            < 0xffff_ffff),
        before.state().inodes[ino].size + offset + data.len() <= 0xffff_ffff,
        before.state().inodes[ino].size + offset + data.len() <= usize::MAX,
        before.meta().log_at() + 512 <= 0x400_0000,
    ensures
        r matches Err(n) ==> n == Errno::EIO,
{
    let rec = before.state().inodes[ino];
    content::settled_content(before.data(), before.data(), before.cursors(), rec);
    if let Err(n) = r {
        if !(n == Errno::EIO && after == before) {
            if rec.mode == InodeMode::Writable {
                let c = content::overwritten(before.file(ino)->Ok_0, offset as int, data);
                let e = choose|e: PoolError| #[trigger]
                    pool::rewrite_failed(before, after, ino, false, c, e) && n == errno_of(e);
                lemma_able_less(
                    before,
                    able,
                    28 + rec.size + offset + data.len() as int,
                    c.len() as int,
                );
                pool::a_rewrite_is_owed(before, after, ino, false, c, slots, able, e);
            } else {
                let e = choose|e: PoolError| #[trigger]
                    pool::append_failed(before, after, ino, data, e) && n == errno_of(e);
                lemma_able_less(
                    before,
                    able,
                    28 + rec.size + offset + data.len() as int,
                    28 + data.len() as int,
                );
                pool::an_append_is_owed(
                    before,
                    after,
                    ino,
                    data,
                    rec.data->ChunkLog_0,
                    slots,
                    able,
                    e,
                );
            }
        }
    }
}

proof fn lemma_able_less<D: Disk>(p: Pool<D>, able: Seq<u128>, n: int, k: int)
    requires
        pool::all_able(p, able, n),
        k <= n,
    ensures
        pool::all_able(p, able, k),
{
    let m = p.map().disks;
    assert forall|i: int| 0 <= i < able.len() implies crate::placement::may_take(
        m,
        pool::data_disks(m),
        #[trigger] able[i],
    ) && k <= crate::segment::room(p.cursors()[able[i] - 1]) by {}
}

/// A read that succeeds gives as many bytes as were asked for, or as many as there
/// are from `offset` to the end of the file, and they are the file's.
pub proof fn a_read_gives_the_bytes_of_the_file<D: Disk>(
    p: Pool<D>,
    ino: InodeId,
    offset: u64,
    size: u32,
    r: Result<Vec<u8>, Errno>,
)
    requires
        reads(p, ino, offset, size, r),
    ensures
        r matches Ok(v) ==> (p.file(ino) matches Ok(c) && {
            &&& offset >= c.len() ==> v@.len() == 0
            &&& offset < c.len() && offset + size <= c.len() ==> v@.len() == size
            &&& offset < c.len() && offset + size > c.len() ==> v@.len() == c.len() - offset
            &&& forall|i: int| 0 <= i < v@.len() ==> #[trigger] v@[i] == c[offset + i]
        }),
        r matches Err(n) ==> {
            &&& p.whole(ino) ==> n == Errno::EIO
            &&& !p.state().inodes.dom().contains(ino) ==> n == Errno::ENOENT || n == Errno::EIO
        },
{
    match r {
        Ok(v) => {
            content::a_read_gives_what_is_there(
                p.file(ino)->Ok_0,
                offset as nat,
                size as nat,
            );
        },
        Err(n) => {
            let e = choose|e: PoolError| #[trigger]
                pool::load_failed(p, ino, e) && n == errno_of(e);
            pool::a_whole_file_can_be_read(p, ino, e);
        },
    }
}

/// What was written is what the next read gives.
pub proof fn a_read_gives_back_a_write<D: Disk>(
    before: Pool<D>,
    after: Pool<D>,
    ino: InodeId,
    offset: u64,
    data: Seq<u8>,
    slots: Seq<ReplicaSlot>,
    n: u32,
    v: Vec<u8>,
)
    requires
        before.wf(),
        after.wf(),
        writes(before, after, ino, offset, data, Ok(n)),
        before.whole(ino),
        before.state().inodes[ino].redundancy == SchemeView::Replicated(slots),
        slots.len() > 0,
        reads(after, ino, offset, n, Ok(v)),
    ensures
        v@ == data,
{
    a_write_does_what_it_says(before, after, ino, offset, data, slots, n, ino);
    a_read_gives_the_bytes_of_the_file(after, ino, offset, n, Ok(v));
    let now = after.file(ino)->Ok_0;
    if data.len() == 0 {
        assert(v@ =~= data);
    } else {
        assert forall|i: int| 0 <= i < data.len() implies v@[i] == data[i] by {
            assert(now[offset + i] == data[i]);
        }
        assert(v@ =~= data);
    }
}

/// A conversion that succeeds makes an append-only file converting, or writable
/// where it was waited for, and keeps its bytes and its attributes; every other
/// file is as it was.
pub proof fn a_conversion_keeps_the_file<D: Disk>(
    before: Pool<D>,
    after: Pool<D>,
    ino: InodeId,
    wait: bool,
    slots: Seq<ReplicaSlot>,
    other: InodeId,
)
    requires
        before.wf(),
        after.wf(),
        makes_writable(before, after, ino, wait, Ok(())),
        before.whole(ino),
        before.state().inodes[ino].redundancy == SchemeView::Replicated(slots),
        slots.len() > 0,
    ensures
        before.state().inodes[ino].mode == InodeMode::AppendOnly,
        wait ==> after.state().inodes[ino].mode == InodeMode::Writable,
        !wait ==> after.state().inodes[ino].mode == InodeMode::Converting,
        after.whole(ino),
        after.file(ino) == before.file(ino),
        attr(after.state().inodes[ino]) == attr(before.state().inodes[ino]),
        after.state().inodes[ino].redundancy == before.state().inodes[ino].redundancy,
        after.state().dirs == before.state().dirs,
        other != ino && before.whole(other) ==> after.whole(other) && after.file(other)
            == before.file(other),
{
    before.meta().records_are_under_their_own_number();
    if wait {
        let mid = choose|mid: Pool<D>| #[trigger]
            began(before, mid, ino) && mid.file(ino) is Ok && after.converted(
                mid,
                ino,
                mid.file(ino)->Ok_0,
            );
        mid.meta().records_are_under_their_own_number();
    }
}

/// A file that is not append-only, or not there, is not converted again.
pub proof fn only_append_only_files_are_converted<D: Disk>(
    before: Pool<D>,
    after: Pool<D>,
    ino: InodeId,
    wait: bool,
    r: Result<(), Errno>,
)
    requires
        before.wf(),
        makes_writable(before, after, ino, wait, r),
        before.state().inodes.dom().contains(ino) ==> before.state().inodes[ino].mode
            != InodeMode::AppendOnly,
    ensures
        r == Err::<(), Errno>(Errno::EALREADY),
{
    before.meta().records_are_under_their_own_number();
    if let Err(n) = r {
        if wait && began_only(before, after, ino, n) {
            let mid = choose|mid: Pool<D>| #[trigger]
                began(before, mid, ino) && (n == Errno::EIO && after == mid || rewrite_refused(
                    mid,
                    after,
                    ino,
                    true,
                    mid.file(ino)->Ok_0,
                    n,
                ));
            assert(began(before, mid, ino));
        }
    }
}

/// A file that is created is there under its name: empty, append-only, regular,
/// with the permission bits, owner and time that were asked for, under a number
/// that no file had, and with two replicas anywhere, or as many as there are
/// disks. All other files and entries are as they were.
pub proof fn a_created_file_is_found<D: Disk>(
    before: Pool<D>,
    after: Pool<D>,
    parent: InodeId,
    name: Seq<char>,
    mode: u32,
    uid: u32,
    gid: u32,
    now_unix: u64,
    a: FileAttr,
    other: InodeId,
    entry: (InodeId, Seq<char>),
)
    requires
        creates_or_refuses(before, after, parent, name, mode, uid, gid, now_unix, Ok(a)),
    ensures
        a.ino == before.state().next_inode,
        a.size == 0 && a.blocks == 0,
        a.kind == FileKind::RegularFile,
        a.perm == mode % 4096,
        a.uid == uid && a.gid == gid && a.mtime_unix == now_unix,
        after.state().dirs.dom().contains((parent, name)),
        after.state().dirs[(parent, name)] == a.ino,
        after.state().inodes.dom().contains(a.ino),
        a == attr(after.state().inodes[a.ino]),
        ({
            let rec = after.state().inodes[a.ino];
            &&& rec.mode == InodeMode::AppendOnly
            &&& rec.redundancy matches SchemeView::Replicated(slots) && {
                &&& before.cursors().len() >= 2 ==> slots.len() == 2
                &&& before.cursors().len() < 2 ==> slots.len() == before.cursors().len()
                &&& forall|i: int|
                    0 <= i < slots.len() ==> #[trigger] slots[i] == ReplicaSlot::AnyOfClass(None)
            }
        }),
        after.file(a.ino) == Ok::<Seq<u8>, ReadFault>(Seq::empty()),
        after.state().next_inode == a.ino + 1,
        other != a.ino ==> {
            &&& after.state().inodes.dom().contains(other) == before.state().inodes.dom().contains(
                other,
            )
            &&& before.state().inodes.dom().contains(other) ==> after.state().inodes[other]
                == before.state().inodes[other]
        },
        entry != (parent, name) ==> {
            &&& after.state().dirs.dom().contains(entry) == before.state().dirs.dom().contains(
                entry,
            )
            &&& before.state().dirs.dom().contains(entry) ==> after.state().dirs[entry]
                == before.state().dirs[entry]
        },
{
    let rec = regular_file(
        before.state().next_inode,
        before.cursors().len(),
        mode,
        uid,
        gid,
        now_unix,
    );
    attributes_tell_the_record(rec);
    assert((0o100000u32 | (mode & 0o7777)) % 4096 == mode % 4096) by (bit_vector);
    assert(((0o100000u32 | (mode & 0o7777)) / 16384) % 2 == 0) by (bit_vector);
}

/// A name that is unlinked leads nowhere, and nothing else changes: the bytes of
/// all files are as they were.
pub proof fn an_unlinked_name_is_gone<D: Disk>(
    before: Pool<D>,
    after: Pool<D>,
    parent: InodeId,
    name: Seq<char>,
    entry: (InodeId, Seq<char>),
    other: InodeId,
)
    requires
        unlinks(before, after, parent, name, Ok(())),
    ensures
        !after.state().dirs.dom().contains((parent, name)),
        entry != (parent, name) ==> {
            &&& after.state().dirs.dom().contains(entry) == before.state().dirs.dom().contains(
                entry,
            )
            &&& before.state().dirs.dom().contains(entry) ==> after.state().dirs[entry]
                == before.state().dirs[entry]
        },
        after.state().inodes == before.state().inodes,
        after.file(other) == before.file(other),
{
    store::entries_come_and_go(before.state(), parent, name, 0, entry);
}

/// A listing starts with the directory itself under its two names, goes on with
/// every entry once, sorted by the bytes of the names, and can be taken up where
/// it stopped.
pub proof fn a_listing_shows_every_entry_once(
    s: MetaState,
    ino: InodeId,
    offset: u64,
    answer: Vec<DirEntry>,
    lines: Seq<DirEntry>,
    name: Seq<char>,
)
    requires
        reads_dir(s, ino, offset, Ok(answer)),
        lines == answer@,
    ensures
        forall|i: int| 0 <= i < lines.len() ==> (#[trigger] lines[i]).next == offset + i + 1,
        offset == 0 ==> {
            &&& lines.len() >= 2
            &&& lines[0].name@ == "."@ && lines[0].ino == ino && lines[0].kind
                == FileKind::Directory
            &&& lines[1].name@ == ".."@ && lines[1].ino == ino && lines[1].kind
                == FileKind::Directory
            &&& s.dirs.dom().contains((ino, name)) ==> exists|i: int|
                2 <= i < lines.len() && (#[trigger] lines[i]).name@ == name
        },
        forall|i: int|
            0 <= i < lines.len() && offset + i >= 2 ==> {
                let line = #[trigger] lines[i];
                &&& s.dirs.dom().contains((ino, line.name@))
                &&& line.ino == s.dirs[(ino, line.name@)]
                &&& s.inodes.dom().contains(line.ino) && s.inodes[line.ino].unix_mode / 16384
                    % 2 == 0 ==> line.kind == FileKind::RegularFile
            },
        forall|i: int, j: int|
            0 <= i < j < lines.len() && offset + i >= 2 ==> (#[trigger] lines[i]).name@ != (
            #[trigger] lines[j]).name@ && crate::local::sorts_before(
                encode_utf8(lines[i].name@),
                encode_utf8(lines[j].name@),
            ),
{
    let (list, kinds) = choose|list: Seq<(String, InodeId)>, kinds: Seq<FileKind>|
        store::is_listing(s.dirs, ino, list) && kinds.len() == list.len() && (forall|i: int|
            0 <= i < list.len() ==> shows(s, (#[trigger] list[i]).1, kinds[i]))
            && #[trigger] lines_of(ino, list, kinds, offset, lines);
    store::a_listing_is_the_directory(s.dirs, ino, list, name);
    assert forall|i: int| 0 <= i < lines.len() implies (#[trigger] lines[i]).next == offset + i
        + 1 by {
        assert(line_of(ino, list, kinds, offset + i, lines[i]));
    }
    if offset == 0 {
        assert(line_of(ino, list, kinds, 0, lines[0]));
        assert(line_of(ino, list, kinds, 1, lines[1]));
        if s.dirs.dom().contains((ino, name)) {
            let k = choose|k: int| 0 <= k < list.len() && (#[trigger] list[k]).0@ == name;
            assert(line_of(ino, list, kinds, k + 2, lines[k + 2]));
        }
    }
    assert forall|i: int| 0 <= i < lines.len() && offset + i >= 2 implies {
        let line = #[trigger] lines[i];
        &&& s.dirs.dom().contains((ino, line.name@))
        &&& line.ino == s.dirs[(ino, line.name@)]
        &&& s.inodes.dom().contains(line.ino) && s.inodes[line.ino].unix_mode / 16384 % 2 == 0
            ==> line.kind == FileKind::RegularFile
    } by {
        let at = offset + i - 2;
        assert(line_of(ino, list, kinds, offset + i, lines[i]));
        assert(shows(s, list[at].1, kinds[at]));
        let found = choose|found: Result<Option<InodeRecord>, PoolError>| #[trigger]
            may_find(s, list[at].1, found) && kinds[at] == shown_kind(found);
        assert(s.dirs.dom().contains((ino, list[at].0@)));
        if let Ok(Some(rec)) = found {
            attributes_tell_the_record(rec@);
        }
    }
    assert forall|i: int, j: int| 0 <= i < j < lines.len() && offset + i >= 2 implies (
    #[trigger] lines[i]).name@ != (#[trigger] lines[j]).name@ && crate::local::sorts_before(
        encode_utf8(lines[i].name@),
        encode_utf8(lines[j].name@),
    ) by {
        assert(line_of(ino, list, kinds, offset + i, lines[i]));
        assert(line_of(ino, list, kinds, offset + j, lines[j]));
        assert(list[offset + i - 2].0@ != list[offset + j - 2].0@);
    }
}

/// A listing from a later position is the rest of the whole one, for entries of
/// the same kinds.
pub proof fn a_listing_goes_on_where_it_stopped(
    ino: InodeId,
    list: Seq<(String, InodeId)>,
    kinds: Seq<FileKind>,
    offset: u64,
    all: Seq<DirEntry>,
    rest: Seq<DirEntry>,
    i: int,
)
    requires
        lines_of(ino, list, kinds, 0, all),
        lines_of(ino, list, kinds, offset, rest),
    ensures
        all.len() == list.len() + 2,
        offset <= all.len() ==> rest.len() == all.len() - offset,
        offset > all.len() ==> rest.len() == 0,
        0 <= i < rest.len() ==> {
            &&& rest[i].ino == all[offset + i].ino
            &&& rest[i].name@ == all[offset + i].name@
            &&& rest[i].kind == all[offset + i].kind
            &&& rest[i].next == all[offset + i].next
        },
{
    if 0 <= i < rest.len() {
        assert(line_of(ino, list, kinds, offset + i, rest[i]));
        assert(line_of(ino, list, kinds, offset + i, all[offset + i]));
    }
}

/// Each kind of failure has its own error number, and failures of the storage
/// share one.
pub proof fn failures_have_their_numbers(e: PoolError)
    ensures
        errno_of(e) == Errno::ENOENT <==> e is NotFound,
        errno_of(e) == Errno::EPERM <==> e is WrongMode,
        errno_of(e) == Errno::ENOSPC <==> e is Unplaceable,
        errno_of(e) == Errno::EINVAL <==> e is NoDisks,
        errno_of(e) == Errno::EIO <==> e is Io || e is Meta,
{
}

/// A change of the size is refused exactly where the file is not writable and the
/// size is another one; otherwise the answer is the file as it is.
pub proof fn sizes_are_changed_by_writes_alone(rec: InodeView, size: u64)
    ensures
        resize_answer(rec, None) == Ok::<FileAttr, Errno>(attr(rec)),
        resize_answer(rec, Some(rec.size)) == Ok::<FileAttr, Errno>(attr(rec)),
        rec.mode == InodeMode::Writable ==> resize_answer(rec, Some(size)) == Ok::<
            FileAttr,
            Errno,
        >(attr(rec)),
        rec.mode != InodeMode::Writable && size != rec.size ==> resize_answer(rec, Some(size))
            == Err::<FileAttr, Errno>(Errno::EPERM),
{
}

/// A control call reports a file's mode as a number that grows with each step of
/// a conversion, and its size twice: what there is, and what of it is converted.
pub proof fn the_state_of_a_file_is_reported(rec: InodeView)
    ensures
        ({
            let b = ioctl::state_image(state_of(rec));
            &&& b.len() == 24
            &&& bytes::le_value(b.subrange(0, 4)) == match rec.mode {
                InodeMode::AppendOnly => 0nat,
                InodeMode::Converting => 1,
                InodeMode::Writable => 2,
            }
            &&& bytes::le_value(b.subrange(8, 16)) == rec.size
            &&& bytes::le_value(b.subrange(16, 24)) == rec.size
        }),
{
    ioctl::a_state_has_its_parts_in_order(state_of(rec));
}

/// Control calls are told apart by their numbers: to convert, with a flag in the
/// lowest bit that says whether to wait; to ask for the state; to set the
/// redundancy that the argument stands for; and to ask for it. Erasure coding is
/// not supported, and other numbers are no calls.
pub proof fn control_calls_ask_for_what_they_say(cmd: u32, arg: Seq<u8>)
    ensures
        match control(cmd, arg) {
            Ok(ControlView::MakeWritable { wait }) => {
                &&& cmd == 0x4004_5401 && arg.len() >= 4
                &&& wait <==> arg[0] % 2 == 1
            },
            Ok(ControlView::GetState) => cmd == 0x8018_5402,
            Ok(ControlView::SetRedundancy(scheme)) => cmd == 0x4190_5403 && scheme is Replicated
                && ioctl::scheme_of(arg) == Some(scheme),
            Ok(ControlView::GetRedundancy) => cmd == 0x8190_5404,
            Err(Errno::EINVAL) => {
                ||| cmd == 0x4004_5401 && arg.len() < 4
                ||| cmd == 0x4190_5403 && ioctl::scheme_of(arg) is None
            },
            Err(Errno::EOPNOTSUPP) => cmd == 0x4190_5403 && (ioctl::scheme_of(arg) matches Some(
                s,
            ) && s is ErasureCoded),
            Err(Errno::ENOTTY) => cmd != 0x4004_5401 && cmd != 0x8018_5402 && cmd != 0x4190_5403
                && cmd != 0x8190_5404,
            Err(_) => false,
        },
{
    if cmd == 0x4004_5401 && arg.len() >= 4 {
        let b = arg.subrange(0, 4);
        bytes::lemma_pow256_values();
        bytes::lemma_le_value_bound(b);
        assert(bytes::le_value(b) == b[0] + 256 * bytes::le_value(b.drop_first()));
        let flags = bytes::le_value(b) as u32;
        assert(flags & 1 == flags % 2) by (bit_vector);
        assert(b[0] == arg[0]);
        assert(flags % 2 == arg[0] % 2);
    }
}

/// A new file gets two replicas anywhere, or as many as there are disks.
pub proof fn new_files_have_two_replicas(disks: nat, i: int)
    ensures
        default_scheme(disks) matches SchemeView::Replicated(slots) && {
            &&& disks >= 2 ==> slots.len() == 2
            &&& disks < 2 ==> slots.len() == disks
            &&& 0 <= i < slots.len() ==> slots[i] == ReplicaSlot::AnyOfClass(None)
        },
{
}

/// A name that is taken is refused as that, and nothing happens; a file is never
/// created over another.
pub proof fn a_taken_name_is_refused<D: Disk>(
    found: Result<Option<InodeId>, PoolError>,
    before: Pool<D>,
    after: Pool<D>,
    parent: InodeId,
    name: Seq<char>,
    mode: u32,
    uid: u32,
    gid: u32,
    now_unix: u64,
    r: Result<FileAttr, Errno>,
)
    requires
        creates_unless_taken(
            found,
            before,
            after,
            parent,
            name,
            mode,
            uid,
            gid,
            now_unix,
            r,
        ),
        found is Ok,
        found matches Ok(Some(_)) <==> before.state().dirs.dom().contains((parent, name)),
    ensures
        before.state().dirs.dom().contains((parent, name)) <==> r == Err::<FileAttr, Errno>(
            Errno::EEXIST,
        ),
        before.state().dirs.dom().contains((parent, name)) ==> after == before,
        r matches Ok(_) ==> !before.state().dirs.dom().contains((parent, name)),
{
}

/// What is looked up, by name or by number, is shown as long as it reads, and is
/// the file that the name leads to. A name or a number that is there is never
/// called missing.
pub proof fn what_is_looked_up_is_the_file<D: Disk>(
    p: Pool<D>,
    parent: InodeId,
    name: Seq<char>,
    ino: InodeId,
    by_name: Result<FileAttr, Errno>,
    by_number: Result<FileAttr, Errno>,
)
    requires
        p.wf(),
        looks_up(p.state(), parent, name, by_name),
        gets_attr(p.state(), ino, by_number),
    ensures
        by_name matches Ok(a) ==> {
            &&& p.state().dirs.dom().contains((parent, name))
            &&& a.ino == p.state().dirs[(parent, name)]
            &&& p.whole(a.ino) ==> a.size == p.file(a.ino)->Ok_0.len()
        },
        by_name == Err::<FileAttr, Errno>(Errno::ENOENT) ==> !p.state().dirs.dom().contains(
            (parent, name),
        ),
        by_number matches Ok(a) ==> {
            &&& p.state().inodes.dom().contains(ino)
            &&& a.ino == ino
            &&& p.whole(ino) ==> a.size == p.file(ino)->Ok_0.len()
        },
        by_number == Err::<FileAttr, Errno>(Errno::ENOENT) ==> !p.state().inodes.dom().contains(
            ino,
        ),
        by_name matches Ok(a) ==> (by_number matches Ok(b) ==> (a.ino == ino ==> a == b)),
        by_name matches Err(n) ==> n == Errno::ENOENT || n == Errno::EIO,
        by_number matches Err(n) ==> n == Errno::ENOENT || n == Errno::EIO,
{
    p.meta().records_are_under_their_own_number();
    if let Ok(a) = by_name {
        if p.whole(a.ino) {
            a_file_is_shown_as_long_as_it_is(p, a.ino);
        }
    }
    if p.whole(ino) {
        a_file_is_shown_as_long_as_it_is(p, ino);
    }
}

/// A policy is refused for want of disks exactly where one of its slots asks for
/// what no disk of the pool can give, and nothing happens then.
pub proof fn policies_are_set_or_refused<D: Disk>(
    before: Pool<D>,
    after: Pool<D>,
    ino: InodeId,
    slots: Seq<ReplicaSlot>,
    n: Errno,
    k: int,
)
    requires
        sets_redundancy(before, after, ino, SchemeView::Replicated(slots), Err(n)),
    ensures
        n == Errno::ENOSPC || n == Errno::EIO,
        n == Errno::ENOSPC ==> after == before && exists|j: int|
            0 <= j < slots.len() && forall|x: u128| #[trigger]
                before.map().disks.dom().contains(x) && before.map().disks[x].roles.data
                    && before.map().disks[x].state == crate::proto::DiskState::Active
                    && before.map().disks[x].used_bytes < before.map().disks[x].capacity_bytes
                    ==> !pool::meets(#[trigger] slots[j], x, before.map().disks[x]),
        n == Errno::EIO && 0 <= k < slots.len() ==> !pool::slot_unfit(
            before.map().disks,
            slots[k],
        ),
{
    let m = before.map().disks;
    if pool::unsatisfiable(m, SchemeView::Replicated(slots)) {
        let j = choose|j: int| 0 <= j < slots.len() && pool::slot_unfit(m, #[trigger] slots[j]);
        assert forall|x: u128| #[trigger]
            m.dom().contains(x) && m[x].roles.data && m[x].state
                == crate::proto::DiskState::Active && m[x].used_bytes
                < m[x].capacity_bytes implies !pool::meets(slots[j], x, m[x]) by {
            assert(crate::placement::may_take(m, pool::data_disks(m), x));
        }
        assert(0 <= j < slots.len());
    } else if 0 <= k < slots.len() && pool::slot_unfit(m, slots[k]) {
        let scheme = SchemeView::Replicated(slots);
        assert(pool::slot_unfit(m, scheme->Replicated_0[k]));
        assert(pool::unsatisfiable(m, scheme));
    }
}

/// A policy that was set is the file's, and changes no byte of any file.
pub proof fn a_policy_that_was_set_stands<D: Disk>(
    before: Pool<D>,
    after: Pool<D>,
    ino: InodeId,
    scheme: SchemeView,
    other: InodeId,
)
    requires
        before.wf(),
        sets_redundancy(before, after, ino, scheme, Ok(())),
    ensures
        before.state().inodes.dom().contains(ino),
        after.state().inodes[ino].redundancy == scheme,
        attr(after.state().inodes[ino]) == attr(before.state().inodes[ino]),
        after.state().inodes[ino].mode == before.state().inodes[ino].mode,
        before.state().inodes.dom().contains(other) ==> after.file(other) == before.file(other),
        other != ino && before.state().inodes.dom().contains(other)
            ==> after.state().inodes[other] == before.state().inodes[other],
        after.state().dirs == before.state().dirs,
{
    before.meta().records_are_under_their_own_number();
}

/// A write that would end where nothing can be addressed is too big for a writable
/// file, and only such a one.
pub proof fn writes_that_reach_too_far_are_too_big(rec: InodeView, offset: u64, len: nat)
    ensures
        write_answer(rec, offset, len) == Err::<WriteKind, Errno>(Errno::EFBIG) <==> rec.mode
            == InodeMode::Writable && offset + len > usize::MAX,
{
}

/// A removal is owed where the log has room for it: only the storage can then
/// stand in the way, and the answer is `EIO`.
pub proof fn an_unlink_is_owed<D: Disk>(
    before: Pool<D>,
    after: Pool<D>,
    parent: InodeId,
    name: Seq<char>,
    n: Errno,
)
    requires
        before.wf(),
        unlinks(before, after, parent, name, Err(n)),
        before.meta().log_at() + 25 + encode_utf8(name).len() <= 0x400_0000,
    ensures
        n == Errno::EIO,
        exists|e: PoolError| #[trigger] pool::storage_failed(before, after, e),
{
    broadcast use bytes::lemma_le_len;

    let op = OpView::Unlink { parent, name };
    let e = choose|e: PoolError| #[trigger] pool::meta_failed(before, op, after, e);
    if let PoolError::Meta(MetaStoreError::InvalidOp(_)) = e {
        let payload = choose|payload: Seq<u8>| #[trigger]
            wire::encodes(op, payload) && before.meta().log_at() + crate::wal::frame_bytes(
                payload,
            ).len() > crate::wal::WAL_CAPACITY_BYTES;
        assert(crate::wal::frame_bytes(payload).len() == 12 + payload.len());
    }
    assert(pool::storage_failed(before, after, e));
}

/// Changing the size of a file is answered with the file as it is, or refused as
/// forbidden, or as missing where it is.
pub proof fn attributes_are_answered_as_they_are(
    s: MetaState,
    ino: InodeId,
    size: Option<u64>,
    r: Result<FileAttr, Errno>,
)
    requires
        sets_attr(s, ino, size, r),
    ensures
        match r {
            Ok(a) => {
                &&& s.inodes.dom().contains(ino) && a == attr(s.inodes[ino])
                &&& s.inodes[ino].mode != InodeMode::Writable ==> size is None || size
                    == Some(s.inodes[ino].size)
            },
            Err(Errno::EPERM) => s.inodes.dom().contains(ino) && s.inodes[ino].mode
                != InodeMode::Writable && size is Some && size != Some(s.inodes[ino].size),
            Err(Errno::ENOENT) => !s.inodes.dom().contains(ino),
            Err(n) => n == Errno::EIO,
        },
{
}

/// A control call does what it asks for and answers with what was asked: the
/// state is the file's mode and size, the redundancy is the file's, a conversion
/// and a new redundancy are what the calls for them do, and a question changes
/// nothing.
pub proof fn control_calls_answer_what_was_asked<D: Disk>(
    before: Pool<D>,
    after: Pool<D>,
    ino: InodeId,
    c: ControlView,
    v: Vec<u8>,
)
    requires
        controlled(before, after, ino, Ok(c), Ok(v)),
    ensures
        match c {
            ControlView::GetState => {
                let rec = before.state().inodes[ino];
                &&& after == before && before.state().inodes.dom().contains(ino)
                &&& v@.len() == 24
                &&& bytes::le_value(v@.subrange(0, 4)) == match rec.mode {
                    InodeMode::AppendOnly => 0nat,
                    InodeMode::Converting => 1,
                    InodeMode::Writable => 2,
                }
                &&& bytes::le_value(v@.subrange(8, 16)) == rec.size
                &&& bytes::le_value(v@.subrange(16, 24)) == rec.size
            },
            ControlView::GetRedundancy => {
                &&& after == before && before.state().inodes.dom().contains(ino)
                &&& v@.len() == 400
                &&& match before.state().inodes[ino].redundancy {
                    SchemeView::Replicated(slots) => slots.len() <= 16 ==> ioctl::scheme_of(v@)
                        == Some(SchemeView::Replicated(slots)),
                    s => ioctl::scheme_of(v@) == Some(s),
                }
            },
            ControlView::SetRedundancy(scheme) => v@.len() == 0 && sets_redundancy(
                before,
                after,
                ino,
                scheme,
                Ok(()),
            ),
            ControlView::MakeWritable { wait } => v@.len() == 0 && makes_writable(
                before,
                after,
                ino,
                wait,
                Ok(()),
            ),
        },
{
    let rec = before.state().inodes[ino];
    the_state_of_a_file_is_reported(rec);
    ioctl::image_round_trip(rec.redundancy);
    ioctl::images_have_one_size(rec.redundancy);
    if let SchemeView::Replicated(slots) = rec.redundancy {
        ioctl::an_image_has_room_for_sixteen(slots);
    }
}

/// A call that is no call, or whose argument makes no sense, changes nothing and is
/// refused as that; and so is a question about a file that is not there.
pub proof fn bad_control_calls_change_nothing<D: Disk>(
    before: Pool<D>,
    after: Pool<D>,
    ino: InodeId,
    c: Result<ControlView, Errno>,
    r: Result<Vec<u8>, Errno>,
)
    requires
        controlled(before, after, ino, c, r),
    ensures
        c matches Err(n) ==> r == Err::<Vec<u8>, Errno>(n) && after == before,
        c matches Ok(q) ==> (q is GetState || q is GetRedundancy ==> after == before && (
        r matches Err(n) ==> n == Errno::EIO || n == Errno::ENOENT
            && !before.state().inodes.dom().contains(ino))),
{
}

} // verus!
