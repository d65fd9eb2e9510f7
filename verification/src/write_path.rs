//! The two write paths of a file and the mode that decides between them.

use crate::mode;
use crate::proto::{
    self, DataLocator, Extent, ExtentView, InodeMode, InodeRecord, InodeView, LocatorView,
};
use vstd::prelude::*;

verus! {

#[derive(Debug, PartialEq, Eq, Structural)]
pub enum WriteError {
    /// An append-only file, and the write is not at its end.
    NotAppendOnlyOrder,
    /// The file may not be truncated.
    RandomWriteDenied,
    /// A converting file, and the write is not at its end.
    ConversionInProgress,
}

#[derive(Debug, PartialEq, Eq, Structural)]
pub enum WriteKind {
    /// Goes to the chunk log.
    Append,
    /// Goes to the extent map.
    RandomWrite,
}

#[derive(Debug, PartialEq, Eq, Structural)]
pub enum ConvertError {
    AlreadyWritable,
    AlreadyConverting,
}

/// What a write at `offset` is.
pub open spec fn write_kind(inode: InodeView, offset: u64) -> Result<WriteKind, WriteError> {
    match inode.mode {
        InodeMode::Writable => Ok(WriteKind::RandomWrite),
        InodeMode::AppendOnly => if offset == inode.size {
            Ok(WriteKind::Append)
        } else {
            Err(WriteError::NotAppendOnlyOrder)
        },
        InodeMode::Converting => if offset == inode.size {
            Ok(WriteKind::Append)
        } else {
            Err(WriteError::ConversionInProgress)
        },
    }
}

/// What truncating a file comes to.
pub open spec fn truncation(inode: InodeView) -> Result<(), WriteError> {
    if inode.mode == InodeMode::Writable {
        Ok(())
    } else {
        Err(WriteError::RandomWriteDenied)
    }
}

/// The record of a file whose bytes were stored in `extents`.
pub open spec fn finished(inode: InodeView, extents: Seq<ExtentView>) -> InodeView {
    InodeView { mode: InodeMode::Writable, data: LocatorView::Extents(extents), ..inode }
}

/// Where a conversion that is begun leads.
pub open spec fn begun(m: InodeMode) -> Result<InodeMode, ConvertError> {
    match m {
        InodeMode::AppendOnly => Ok(InodeMode::Converting),
        InodeMode::Converting => Err(ConvertError::AlreadyConverting),
        InodeMode::Writable => Err(ConvertError::AlreadyWritable),
    }
}

/// What kind of write a write at `offset` is.
pub fn classify_write(inode: &InodeRecord, offset: u64, _len: usize) -> (r: Result<
    WriteKind,
    WriteError,
>)
    ensures
        r == write_kind(inode@, offset),
{
    match inode.mode {
        InodeMode::AppendOnly => {
            if offset == inode.size {
                Ok(WriteKind::Append)
            } else {
                Err(WriteError::NotAppendOnlyOrder)
            }
        },
        InodeMode::Converting => {
            if offset == inode.size {
                Ok(WriteKind::Append)
            } else {
                Err(WriteError::ConversionInProgress)
            }
        },
        InodeMode::Writable => Ok(WriteKind::RandomWrite),
    }
}

pub fn truncate_allowed(inode: &InodeRecord) -> (r: Result<(), WriteError>)
    ensures
        r == truncation(inode@),
{
    match inode.mode {
        InodeMode::AppendOnly | InodeMode::Converting => Err(WriteError::RandomWriteDenied),
        InodeMode::Writable => Ok(()),
    }
}

/// Starts a conversion: flips an append-only file to converting.
pub fn begin_convert(inode: &mut InodeRecord) -> (r: Result<(), ConvertError>)
    ensures
        match begun(old(inode)@.mode) {
            Ok(m) => r is Ok && final(inode)@ == (InodeView { mode: m, ..old(inode)@ }),
            Err(e) => r == Err::<(), ConvertError>(e) && *final(inode) == *old(inode),
        },
{
    match inode.mode {
        InodeMode::Writable => Err(ConvertError::AlreadyWritable),
        InodeMode::Converting => Err(ConvertError::AlreadyConverting),
        InodeMode::AppendOnly => {
            inode.mode = InodeMode::Converting;
            Ok(())
        },
    }
}

/// Finishes a conversion: the file is writable and its bytes are in `extents`.
pub fn complete_convert(inode: &mut InodeRecord, extents: Vec<Extent>)
    requires
        old(inode)@.mode == InodeMode::Converting,
    ensures
        final(inode)@ == finished(old(inode)@, proto::views(extents@)),
{
    inode.data = DataLocator::Extents(extents);
    inode.mode = InodeMode::Writable;
}

// ---------------------------------------------------------------------
// Laws

/// The mode as a number.
pub open spec fn mode_number(m: InodeMode) -> u32 {
    match m {
        InodeMode::AppendOnly => mode::MODE_APPEND_ONLY,
        InodeMode::Converting => mode::MODE_CONVERTING,
        InodeMode::Writable => mode::MODE_WRITABLE,
    }
}

/// The result as a number.
pub open spec fn kind_number(r: Result<WriteKind, WriteError>) -> i32 {
    match r {
        Ok(WriteKind::Append) => mode::WRITE_KIND_APPEND,
        Ok(WriteKind::RandomWrite) => mode::WRITE_KIND_RANDOM,
        Err(WriteError::NotAppendOnlyOrder) => mode::ERR_NOT_APPEND_ORDER,
        Err(WriteError::RandomWriteDenied) => mode::ERR_RANDOM_WRITE_DENIED,
        Err(WriteError::ConversionInProgress) => mode::ERR_CONVERSION_IN_PROGRESS,
    }
}

/// On inode records the state machine decides as it does on plain numbers.
pub proof fn agrees_with_plain_numbers(inode: InodeView, offset: u64)
    ensures
        kind_number(write_kind(inode, offset)) == mode::write_kind(
            mode_number(inode.mode),
            inode.size,
            offset,
        ),
        (inode.mode == InodeMode::Writable) == (mode::truncation(mode_number(inode.mode)) == 0),
        match begun(inode.mode) {
            Ok(m) => mode::begun(mode_number(inode.mode)) == mode_number(m),
            Err(ConvertError::AlreadyWritable) => mode::begun(mode_number(inode.mode))
                == mode::ERR_ALREADY_WRITABLE,
            Err(ConvertError::AlreadyConverting) => mode::begun(mode_number(inode.mode))
                == mode::ERR_ALREADY_CONVERTING,
        },
{
}

/// A write anywhere but at the end is accepted only by a writable file.
pub proof fn only_writable_takes_random_writes(inode: InodeView, offset: u64)
    requires
        offset != inode.size,
    ensures
        write_kind(inode, offset) is Ok <==> inode.mode == InodeMode::Writable,
{
}

/// A writable file takes a write at any offset, its end included, and as a
/// write in place.
pub proof fn writable_files_take_every_write(inode: InodeView, offset: u64)
    requires
        inode.mode == InodeMode::Writable,
    ensures
        write_kind(inode, offset) == Ok::<WriteKind, WriteError>(WriteKind::RandomWrite),
{
}

/// A file that is not writable takes a write exactly at its end, and as an
/// append. Anywhere else the refusal tells whether a conversion is on its way.
pub proof fn other_files_take_writes_at_their_end(inode: InodeView, offset: u64)
    requires
        inode.mode != InodeMode::Writable,
    ensures
        write_kind(inode, inode.size) == Ok::<WriteKind, WriteError>(WriteKind::Append),
        offset != inode.size ==> match write_kind(inode, offset) {
            Ok(_) => false,
            Err(WriteError::NotAppendOnlyOrder) => inode.mode == InodeMode::AppendOnly,
            Err(WriteError::ConversionInProgress) => inode.mode == InodeMode::Converting,
            Err(WriteError::RandomWriteDenied) => false,
        },
{
}

/// A file may be truncated exactly where it may be written before its end.
pub proof fn truncation_goes_with_writes_in_place(inode: InodeView, offset: u64)
    requires
        offset != inode.size,
    ensures
        truncation(inode) is Ok <==> write_kind(inode, offset) is Ok,
        truncation(inode) is Err ==> truncation(inode) == Err::<(), WriteError>(
            WriteError::RandomWriteDenied,
        ),
{
}

/// A conversion makes an append-only file writable in two steps, and changes
/// nothing of it but its mode and where its bytes are. Once it is begun it cannot
/// be begun again.
pub proof fn conversion_changes_mode_and_place_alone(
    inode: InodeView,
    extents: Seq<ExtentView>,
    offset: u64,
)
    ensures
        begun(inode.mode) is Ok <==> inode.mode == InodeMode::AppendOnly,
        begun(inode.mode) matches Ok(m) ==> {
            &&& m == InodeMode::Converting
            &&& begun(m) == Err::<InodeMode, ConvertError>(ConvertError::AlreadyConverting)
        },
        ({
            let now = finished(inode, extents);
            &&& write_kind(now, offset) == Ok::<WriteKind, WriteError>(WriteKind::RandomWrite)
            &&& begun(now.mode) == Err::<InodeMode, ConvertError>(ConvertError::AlreadyWritable)
            &&& now.data == LocatorView::Extents(extents)
            &&& now.inode == inode.inode
            &&& now.size == inode.size
            &&& now.redundancy == inode.redundancy
            &&& now.uid == inode.uid && now.gid == inode.gid
            &&& now.unix_mode == inode.unix_mode && now.mtime_unix == inode.mtime_unix
        }),
{
}

} // verus!
