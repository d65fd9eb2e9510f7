//! One pool disk's raw I/O, and what it promises.

use vstd::prelude::*;

verus! {

/// What kind of failure a disk reports.
#[derive(Debug, Clone, Copy, PartialEq, Eq, Structural)]
pub enum DiskErrorKind {
    /// The range that was asked for reaches past the end of the disk.
    UnexpectedEof,
    /// What was to be written has no room.
    WriteZero,
    /// Anything else: the disk is gone, refuses the range, or failed.
    Other,
}

/// A failed read, write or sync, with its texts for people and for logs.
#[derive(Debug, PartialEq, Eq)]
pub struct DiskError {
    pub kind: DiskErrorKind,
    pub message: String,
    pub detail: String,
}

#[verifier::ext_equal]
pub struct DiskErrorView {
    pub kind: DiskErrorKind,
    pub message: Seq<char>,
    pub detail: Seq<char>,
}

impl View for DiskError {
    type V = DiskErrorView;

    open spec fn view(&self) -> DiskErrorView {
        DiskErrorView { kind: self.kind, message: self.message@, detail: self.detail@ }
    }
}

/// The error of a full segment.
pub open spec fn segment_full() -> DiskErrorView {
    DiskErrorView {
        kind: DiskErrorKind::WriteZero,
        message: "segment full"@,
        detail: "Custom { kind: WriteZero, error: \"segment full\" }"@,
    }
}

/// The error of a read past the end of a disk.
pub open spec fn past_end() -> DiskErrorView {
    DiskErrorView {
        kind: DiskErrorKind::UnexpectedEof,
        message: "failed to fill whole buffer"@,
        detail: "Error { kind: UnexpectedEof, message: \"failed to fill whole buffer\" }"@,
    }
}

impl DiskError {
    pub fn past_end() -> (e: Self)
        ensures
            e@ == past_end(),
    {
        DiskError {
            kind: DiskErrorKind::UnexpectedEof,
            message: "failed to fill whole buffer".to_string(),
            detail: "Error { kind: UnexpectedEof, message: \"failed to fill whole buffer\" }".to_string(),
        }
    }

    pub fn segment_full() -> (e: Self)
        ensures
            e@ == segment_full(),
    {
        DiskError {
            kind: DiskErrorKind::WriteZero,
            message: "segment full".to_string(),
            detail: "Custom { kind: WriteZero, error: \"segment full\" }".to_string(),
        }
    }
}

/// `contents` with `data` written at `offset`; a gap before it is zeros.
pub open spec fn written(contents: Seq<u8>, offset: int, data: Seq<u8>) -> Seq<u8> {
    Seq::new(
        if offset + data.len() > contents.len() {
            (offset + data.len()) as nat
        } else {
            contents.len()
        },
        |i: int|
            if offset <= i < offset + data.len() {
                data[i - offset]
            } else if i < contents.len() {
                contents[i]
            } else {
                0u8
            },
    )
}

/// `after` keeps every byte of `before` that is not among the `n` from
/// `offset` on.
pub open spec fn same_outside(before: Seq<u8>, after: Seq<u8>, offset: int, n: nat) -> bool {
    &&& after.len() >= before.len()
    &&& forall|i: int|
        0 <= i < before.len() && !(offset <= i < offset + n) ==> #[trigger] after[i] == before[i]
}

/// A write or a sync came to `r`: a failure is the one that the disk reported,
/// and there is success exactly where it reported none.
pub open spec fn reported<T>(
    before: Seq<DiskErrorView>,
    after: Seq<DiskErrorView>,
    r: Result<T, DiskError>,
) -> bool {
    after == match r {
        Ok(_) => before,
        Err(e) => before.push(e@),
    }
}

/// A disk. `contents` is what reads see, `durable` what a power loss leaves,
/// `faults` the failures that writes and syncs reported so far, in order, and
/// `read_faults` the failures that reads report, other than that a read reaches
/// past the end.
///
/// A handle may stand for a part of a physical disk. It then refuses every
/// read and write outside that part, and no other handle writes inside it.
///
/// These four are there for contracts alone. An implementation that is not
/// verified has no way to give them and leaves them out; that it keeps the
/// promises of the methods, for some such contents, is then up to its author.
pub trait Disk: Send + Sync {
    closed spec fn contents(&self) -> Seq<u8> {
        arbitrary()
    }

    closed spec fn durable(&self) -> Seq<u8> {
        arbitrary()
    }

    closed spec fn faults(&self) -> Seq<DiskErrorView> {
        arbitrary()
    }

    closed spec fn read_faults(&self) -> Set<DiskErrorView> {
        arbitrary()
    }

    /// Reads `buf.len()` bytes from `offset` on.
    fn read_at(&self, offset: u64, buf: &mut [u8]) -> (r: Result<(), DiskError>)
        ensures
            final(buf)@.len() == old(buf)@.len(),
            r is Ok ==> {
                &&& offset + old(buf)@.len() <= self.contents().len()
                &&& final(buf)@ == self.contents().subrange(
                    offset as int,
                    offset + old(buf)@.len(),
                )
            },
            r matches Err(e) && e.kind == DiskErrorKind::UnexpectedEof ==> offset + old(
                buf,
            )@.len() > self.contents().len(),
            r matches Err(e) ==> e.kind == DiskErrorKind::UnexpectedEof
                || self.read_faults().contains(e@),
    ;

    /// Writes `buf` at `offset`. It is not durable until `sync`. Where the
    /// write fails, any part of it may have been made.
    fn write_at(&mut self, offset: u64, buf: &[u8]) -> (r: Result<(), DiskError>)
        ensures
            r is Ok ==> {
                &&& offset + buf@.len() <= u64::MAX
                &&& final(self).contents() == written(
                    old(self).contents(),
                    offset as int,
                    buf@,
                )
            },
            same_outside(
                old(self).contents(),
                final(self).contents(),
                offset as int,
                buf@.len(),
            ),
            same_outside(old(self).durable(), final(self).durable(), offset as int, buf@.len()),
            reported(old(self).faults(), final(self).faults(), r),
    ;

    /// Forces everything written so far to stable storage.
    fn sync(&mut self) -> (r: Result<(), DiskError>)
        ensures
            final(self).contents() == old(self).contents(),
            r is Ok ==> final(self).durable() == old(self).contents(),
            reported(old(self).faults(), final(self).faults(), r),
    ;

    fn capacity_bytes(&self) -> u64;
}

/// What was written is what a read of the range gives.
pub proof fn read_gives_back_what_was_written(contents: Seq<u8>, offset: int, data: Seq<u8>)
    requires
        0 <= offset,
    ensures
        written(contents, offset, data).subrange(offset, offset + data.len()) == data,
        same_outside(contents, written(contents, offset, data), offset, data.len()),
{
    assert(written(contents, offset, data).subrange(offset, offset + data.len()) =~= data);
}

/// A write reaches exactly the bytes that it names: those are its data, the
/// others are as they were, a gap is zeros, and the disk grows no further than
/// it must.
pub proof fn a_write_reaches_what_it_names(contents: Seq<u8>, offset: nat, data: Seq<u8>)
    ensures
        ({
            let after = written(contents, offset as int, data);
            &&& after.len() >= contents.len() && after.len() >= offset + data.len()
            &&& after.len() == contents.len() || after.len() == offset + data.len()
            &&& forall|i: int| 0 <= i < data.len() ==> #[trigger] after[offset + i] == data[i]
            &&& forall|i: int|
                0 <= i < contents.len() && (i < offset || offset + data.len() <= i)
                    ==> #[trigger] after[i] == contents[i]
            &&& forall|i: int| contents.len() <= i < offset ==> #[trigger] after[i] == 0
        }),
{
}

/// A failed write or sync is told apart from one that succeeded, and its failure
/// is the one that is reported.
pub proof fn failures_are_reported_once<T>(
    before: Seq<DiskErrorView>,
    after: Seq<DiskErrorView>,
    r: Result<T, DiskError>,
)
    requires
        reported(before, after, r),
    ensures
        r is Ok ==> after == before,
        r matches Err(e) ==> after.len() == before.len() + 1 && after.last() == e@
            && after.drop_last() == before,
        after.len() == before.len() ==> r is Ok,
{
    if let Err(e) = r {
        assert(before.push(e@).drop_last() =~= before);
    }
}

} // verus!
