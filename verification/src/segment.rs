//! The chunk log: segments of records, written strictly one after the other.

use crate::bytes;
use crate::crc32c;
use crate::disk::{self, Disk, DiskError, DiskErrorKind};
use crate::framing;
use crate::proto::{self, InodeId};
use crate::wire;
use vstd::prelude::*;

verus! {

broadcast use crate::bytes::lemma_le_len;

pub const SEGMENT_SIZE_BYTES: u64 = 256 * 1024 * 1024;

#[derive(Debug, Clone, Copy)]
pub struct SegmentHeader {
    pub segment_id: u64,
    pub created_at_unix: u64,
}

/// Marks the start of a record, so that unwritten space, which is zeros, is
/// not taken for an empty one.
pub const RECORD_MAGIC: u32 = 0x5441_5243;

/// `magic(4) inode(8) chunk_seq(8) checksum(4) len(4)`.
pub const HEADER_LEN: usize = 28;

/// One append for one inode.
#[derive(Debug, Clone, PartialEq, Eq)]
pub struct Record {
    pub inode: InodeId,
    pub chunk_seq: u64,
    /// The CRC32C of `payload`.
    pub checksum: u32,
    pub payload: Vec<u8>,
}

#[verifier::ext_equal]
pub struct RecordView {
    pub inode: InodeId,
    pub chunk_seq: u64,
    pub checksum: u32,
    pub payload: Seq<u8>,
}

impl View for Record {
    type V = RecordView;

    open spec fn view(&self) -> RecordView {
        RecordView {
            inode: self.inode,
            chunk_seq: self.chunk_seq,
            checksum: self.checksum,
            payload: self.payload@,
        }
    }
}

/// The record of a payload, with the checksum that belongs to it.
pub open spec fn record(inode: InodeId, chunk_seq: u64, payload: Seq<u8>) -> RecordView {
    RecordView { inode, chunk_seq, checksum: crc32c::crc(payload), payload }
}

pub open spec fn header_bytes(r: RecordView) -> Seq<u8> {
    wire::u32_bytes(RECORD_MAGIC) + wire::u64_bytes(r.inode) + wire::u64_bytes(r.chunk_seq)
        + wire::u32_bytes(r.checksum) + wire::u32_bytes(wire::len32(r.payload.len()))
}

pub open spec fn record_bytes(r: RecordView) -> Seq<u8> {
    header_bytes(r) + r.payload
}

/// How records look in a segment.
pub open spec fn format() -> framing::Format {
    framing::Format {
        header_len: HEADER_LEN as nat,
        capacity: SEGMENT_SIZE_BYTES as nat,
        payload_len: |h: Seq<u8>|
            if bytes::le_value(h.subrange(0, 4)) == RECORD_MAGIC {
                Some(bytes::le_value(h.subrange(24, 28)))
            } else {
                None
            },
        sound: |h: Seq<u8>, p: Seq<u8>| bytes::le_value(h.subrange(20, 24)) == crc32c::crc(p),
    }
}

/// The record of a header and its payload.
pub open spec fn record_of(e: framing::Entry) -> RecordView {
    RecordView {
        inode: bytes::le_value(e.0.subrange(4, 12)) as u64,
        chunk_seq: bytes::le_value(e.0.subrange(12, 20)) as u64,
        checksum: bytes::le_value(e.0.subrange(20, 24)) as u32,
        payload: e.1,
    }
}

/// What a scan of a segment finds.
#[verifier::ext_equal]
pub struct ScanView {
    pub records: Seq<RecordView>,
    pub resume_at: nat,
    pub corruption_at: Option<nat>,
}

pub open spec fn records_of(es: Seq<framing::Entry>) -> Seq<RecordView> {
    es.map_values(|e: framing::Entry| record_of(e))
}

/// What a scan of the segment at `base` finds.
pub open spec fn scanned(contents: Seq<u8>, base: int) -> ScanView {
    let found = framing::scan_log(format(), contents, base);
    ScanView {
        records: records_of(found.entries),
        resume_at: found.resume_at,
        corruption_at: found.corruption_at,
    }
}

impl Record {
    /// A record with the checksum of its payload.
    pub fn new(inode: InodeId, chunk_seq: u64, payload: Vec<u8>) -> (r: Self)
        ensures
            r@ == record(inode, chunk_seq, payload@),
    {
        let checksum: u32 = crc32c::checksum(payload.as_slice());
        Record { inode, chunk_seq, checksum, payload }
    }
}

/// The write cursor of one open segment on one disk.
pub struct SegmentWriter<D: Disk> {
    disk: D,
    base_offset: u64,
    cursor: u64,
}

/// What is left of a segment behind `cursor`.
pub open spec fn room(cursor: u64) -> int {
    if cursor < SEGMENT_SIZE_BYTES {
        SEGMENT_SIZE_BYTES - cursor
    } else {
        0
    }
}

impl<D: Disk> SegmentWriter<D> {
    pub closed spec fn disk(self) -> D {
        self.disk
    }

    pub closed spec fn base(self) -> u64 {
        self.base_offset
    }

    pub closed spec fn at(self) -> u64 {
        self.cursor
    }

    /// A writer at the start of the segment.
    pub fn new(disk: D, base_offset: u64) -> (w: Self)
        ensures
            w.disk() == disk,
            w.base() == base_offset,
            w.at() == 0,
    {
        SegmentWriter { disk, base_offset, cursor: 0 }
    }

    /// A writer that goes on where a scan says that the last valid record
    /// ends.
    pub fn resume(disk: D, base_offset: u64, resume_at: u64) -> (w: Self)
        ensures
            w.disk() == disk,
            w.base() == base_offset,
            w.at() == resume_at,
    {
        SegmentWriter { disk, base_offset, cursor: resume_at }
    }

    pub fn cursor(&self) -> (c: u64)
        ensures
            c == self.at(),
    {
        self.cursor
    }

    pub fn remaining(&self) -> (n: u64)
        ensures
            n == room(self.at()),
    {
        SEGMENT_SIZE_BYTES.saturating_sub(self.cursor)
    }

    /// Appends `record` and returns the offset that it was written at. Fails
    /// where the record does not fit in what remains of the segment, and where
    /// the disk does. The record is not durable until `sync`.
    pub fn append(&mut self, record: &Record) -> (r: Result<u64, DiskError>)
        requires
            old(self).base() + old(self).at() <= u64::MAX,
        ensures
            final(self).base() == old(self).base(),
            record_bytes(record@).len() > room(old(self).at()) ==> {
                &&& r matches Err(e) && e@ == disk::segment_full()
                &&& *final(self) == *old(self)
            },
            record_bytes(record@).len() <= room(old(self).at()) ==> disk::reported(
                old(self).disk().faults(),
                final(self).disk().faults(),
                r,
            ),
            match r {
                Ok(offset) => {
                    &&& record_bytes(record@).len() <= room(old(self).at())
                    &&& offset == old(self).base() + old(self).at()
                    &&& offset + record_bytes(record@).len() <= u64::MAX
                    &&& final(self).at() == old(self).at() + record_bytes(record@).len()
                    &&& final(self).disk().contents() == disk::written(
                        old(self).disk().contents(),
                        offset as int,
                        record_bytes(record@),
                    )
                },
                Err(_) => {
                    &&& final(self).at() == old(self).at()
                    &&& disk::same_outside(
                        old(self).disk().contents(),
                        final(self).disk().contents(),
                        old(self).base() + old(self).at(),
                        record_bytes(record@).len(),
                    )
                },
            },
            disk::same_outside(
                old(self).disk().durable(),
                final(self).disk().durable(),
                old(self).base() + old(self).at(),
                record_bytes(record@).len(),
            ),
    {
        match append_at(&mut self.disk, self.base_offset, self.cursor, record) {
            Ok(next) => {
                let offset: u64 = self.base_offset + self.cursor;
                self.cursor = next;
                Ok(offset)
            },
            Err(e) => Err(e),
        }
    }

    /// Makes everything appended so far durable. Fails where the disk does,
    /// with the disk's own failure.
    pub fn sync(&mut self) -> (r: Result<(), DiskError>)
        ensures
            final(self).base() == old(self).base(),
            final(self).at() == old(self).at(),
            final(self).disk().contents() == old(self).disk().contents(),
            r is Ok ==> final(self).disk().durable() == old(self).disk().contents(),
            disk::reported(old(self).disk().faults(), final(self).disk().faults(), r),
    {
        self.disk.sync()
    }
}

/// Writes `record` at `cursor` of the segment at `base_offset` and returns
/// where the next one goes. Fails where the record does not fit in what remains
/// of the segment, and where the disk does.
pub fn append_at<D: Disk>(disk: &mut D, base_offset: u64, cursor: u64, record: &Record) -> (r:
    Result<u64, DiskError>)
    requires
        base_offset + cursor <= u64::MAX,
    ensures
        record_bytes(record@).len() > room(cursor) ==> {
            &&& r matches Err(e) && e@ == disk::segment_full()
            &&& *final(disk) == *old(disk)
        },
        record_bytes(record@).len() <= room(cursor) ==> disk::reported(
            old(disk).faults(),
            final(disk).faults(),
            r,
        ),
        match r {
            Ok(next) => {
                &&& record_bytes(record@).len() <= room(cursor)
                &&& next == cursor + record_bytes(record@).len()
                &&& base_offset + next <= u64::MAX
                &&& final(disk).contents() == disk::written(
                    old(disk).contents(),
                    base_offset + cursor,
                    record_bytes(record@),
                )
            },
            Err(_) => true,
        },
        disk::same_outside(
            old(disk).contents(),
            final(disk).contents(),
            base_offset + cursor,
            record_bytes(record@).len(),
        ),
        disk::same_outside(
            old(disk).durable(),
            final(disk).durable(),
            base_offset + cursor,
            record_bytes(record@).len(),
        ),
{
    let encoded = encode(record);
    if encoded.len() as u64 > SEGMENT_SIZE_BYTES.saturating_sub(cursor) {
        return Err(DiskError::segment_full());
    }
    match disk.write_at(base_offset + cursor, encoded.as_slice()) {
        Ok(()) => Ok(cursor + encoded.len() as u64),
        Err(e) => Err(e),
    }
}

fn encode(record: &Record) -> (v: Vec<u8>)
    ensures
        v@ == record_bytes(record@),
{
    let mut v: Vec<u8> = Vec::new();
    bytes::push_le(&mut v, RECORD_MAGIC as u128, 4);
    bytes::push_le(&mut v, record.inode as u128, 8);
    bytes::push_le(&mut v, record.chunk_seq as u128, 8);
    bytes::push_le(&mut v, record.checksum as u128, 4);
    let n: u64 = record.payload.len() as u64;
    assert(n as u32 == n % 0x1_0000_0000) by (bit_vector);
    bytes::push_le(&mut v, (n as u32) as u128, 4);
    assert(v@ =~= header_bytes(record@));
    v.extend_from_slice(record.payload.as_slice());
    assert(v@ =~= record_bytes(record@));
    v
}

/// What a scan of a segment found.
#[derive(Debug)]
pub struct ScanResult {
    pub records: Vec<Record>,
    /// Where a writer goes on, counted from the start of the segment.
    pub resume_at: u64,
    /// Where a record starts that is whole and does not match its checksum.
    pub corruption_at: Option<u64>,
}

pub open spec fn some_nat(x: Option<u64>) -> Option<nat> {
    match x {
        Some(v) => Some(v as nat),
        None => None,
    }
}

impl View for ScanResult {
    type V = ScanView;

    open spec fn view(&self) -> ScanView {
        ScanView {
            records: proto::views(self.records@),
            resume_at: self.resume_at as nat,
            corruption_at: some_nat(self.corruption_at),
        }
    }
}

/// The inode, the chunk number, the checksum and the payload's length of the
/// record with this header; `None` where it is no header.
pub fn parse_header(h: &[u8]) -> (r: Option<(InodeId, u64, u32, u32)>)
    requires
        h@.len() == HEADER_LEN,
    ensures
        match (format().payload_len)(h@) {
            Some(n) => r matches Some((inode, chunk_seq, checksum, len)) && {
                &&& inode == bytes::le_value(h@.subrange(4, 12))
                &&& chunk_seq == bytes::le_value(h@.subrange(12, 20))
                &&& checksum == bytes::le_value(h@.subrange(20, 24))
                &&& len == n
            },
            None => r is None,
        },
{
    if bytes::read_le(h, 0, 4) != RECORD_MAGIC as u128 {
        return None;
    }
    proof {
        bytes::lemma_pow256_values();
    }
    let inode: u64 = bytes::read_le(h, 4, 8) as u64;
    let chunk_seq: u64 = bytes::read_le(h, 12, 8) as u64;
    let checksum: u32 = bytes::read_le(h, 20, 4) as u32;
    let len: u32 = bytes::read_le(h, 24, 4) as u32;
    Some((inode, chunk_seq, checksum, len))
}

/// Reads the records of the segment at `base_offset`, up to the end of what
/// was written, an incomplete record, or one that does not match its checksum.
/// None of these is a failure. An error is one that a read of the disk gave,
/// and never that of a read past its end; where there is no room for a header
/// nothing is read.
pub fn scan<D: Disk>(disk: &D, base_offset: u64) -> (r: Result<ScanResult, DiskError>)
    ensures
        match r {
            Ok(s) => s@ == scanned(disk.contents(), base_offset as int),
            Err(e) => {
                &&& disk.read_faults().contains(e@)
                &&& e.kind != DiskErrorKind::UnexpectedEof
                &&& base_offset <= u64::MAX - HEADER_LEN
            },
        },
{
    let ghost f = format();
    let ghost c = disk.contents();
    let ghost base = base_offset as int;
    let ghost whole = framing::scan_log(f, c, base);
    let mut cursor: u64 = 0;
    let mut records: Vec<Record> = Vec::new();
    let mut corruption_at: Option<u64> = None;
    let mut entries: Ghost<Seq<framing::Entry>> = Ghost(Seq::empty());
    assert(whole.entries =~= entries@ + whole.entries);
    assert(proto::views(records@) =~= records_of(entries@));
    loop
        invariant_except_break
            cursor <= SEGMENT_SIZE_BYTES,
            corruption_at is None,
            proto::views(records@) == records_of(entries@),
            ({
                let more = framing::scan_from(f, c, base, cursor as nat);
                whole == (framing::Found { entries: entries@ + more.entries, ..more })
            }),
        invariant
            f == format(),
            c == disk.contents(),
            base == base_offset,
        ensures
            proto::views(records@) == records_of(whole.entries),
            cursor == whole.resume_at,
            some_nat(corruption_at) == whole.corruption_at,
        decreases SEGMENT_SIZE_BYTES - cursor,
    {
        let ghost len = framing::entry_len(f, c, base, cursor as nat);
        assert(entries@ + Seq::<framing::Entry>::empty() =~= entries@);
        if cursor + HEADER_LEN as u64 > SEGMENT_SIZE_BYTES {
            break;
        }
        if base_offset > u64::MAX - cursor - HEADER_LEN as u64 {
            break;
        }
        let mut header: Vec<u8> = vec![0u8; 28];
        match disk.read_at(base_offset + cursor, header.as_mut_slice()) {
            Ok(()) => {},
            Err(e) => {
                if e.kind == DiskErrorKind::UnexpectedEof {
                    break;
                }
                return Err(e);
            },
        }
        let ghost at = base + cursor;
        assert(header@ == c.subrange(at, at + 28));
        let (inode, chunk_seq, checksum, len): (u64, u64, u32, u64) = match parse_header(
            header.as_slice(),
        ) {
            Some((inode, chunk_seq, checksum, len)) => (inode, chunk_seq, checksum, len as u64),
            None => {
                break;
            },
        };
        if cursor + HEADER_LEN as u64 + len > SEGMENT_SIZE_BYTES {
            break;
        }
        if base_offset > u64::MAX - cursor - HEADER_LEN as u64 - len {
            break;
        }
        let mut payload: Vec<u8> = vec![0u8; len as usize];
        match disk.read_at(base_offset + cursor + HEADER_LEN as u64, payload.as_mut_slice()) {
            Ok(()) => {},
            Err(e) => {
                if e.kind == DiskErrorKind::UnexpectedEof {
                    break;
                }
                return Err(e);
            },
        }
        let ghost e = framing::entry_at(f, c, base, cursor as nat, len as nat);
        assert(payload@ == e.1);
        assert(header@ == e.0);
        assert(framing::entry_len(f, c, base, cursor as nat) == Some(len as nat));
        if crc32c::checksum(payload.as_slice()) != checksum {
            corruption_at = Some(cursor);
            break;
        }
        let ghost before = records@;
        let ghost found = entries@;
        let rec = Record { inode, chunk_seq, checksum, payload };
        assert(rec@ == record_of(e));
        let ghost rv = rec@;
        records.push(rec);
        cursor = cursor + HEADER_LEN as u64 + len;
        proof {
            entries@ = found.push(e);
            let more = framing::scan_from(f, c, base, cursor as nat);
            assert(found + (seq![e] + more.entries) =~= entries@ + more.entries);
            assert(proto::views(records@) =~= proto::views(before).push(rv));
            assert(records_of(entries@) =~= records_of(found).push(rv));
        }
    }
    Ok(ScanResult { records, resume_at: cursor, corruption_at })
}

// ---------------------------------------------------------------------
// Laws

/// Everything from `at` on is zeros.
pub open spec fn blank(contents: Seq<u8>, at: int) -> bool {
    forall|i: int| at <= i < contents.len() ==> #[trigger] contents[i] == 0
}

proof fn lemma_blank_is_no_record(contents: Seq<u8>, base: int, cursor: nat)
    requires
        0 <= base,
        blank(contents, base + cursor),
    ensures
        framing::entry_len(format(), contents, base, cursor) is None,
{
    let at = base + cursor;
    if framing::present(contents, at, 28) {
        let h = contents.subrange(at, at + 28);
        lemma_zeros(h.subrange(0, 4));
    }
}

/// Zeros stand for zero.
pub proof fn lemma_zeros(s: Seq<u8>)
    requires
        forall|i: int| 0 <= i < s.len() ==> #[trigger] s[i] == 0,
    ensures
        bytes::le_value(s) == 0,
    decreases s.len(),
{
    if s.len() > 0 {
        lemma_zeros(s.drop_first());
    }
}

/// The bytes of a record are an entry: its header is recognised, gives the
/// payload's length, and is the record's.
proof fn lemma_record_entry(r: RecordView)
    requires
        r.payload.len() <= u32::MAX,
    ensures
        header_bytes(r).len() == HEADER_LEN,
        (format().payload_len)(header_bytes(r)) == Some(r.payload.len()),
        (format().sound)(header_bytes(r), r.payload) == (r.checksum == crc32c::crc(r.payload)),
        record_of((header_bytes(r), r.payload)) == r,
{
    let h = header_bytes(r);
    bytes::lemma_pow256_values();
    bytes::lemma_le_round_trip(RECORD_MAGIC as nat, 4);
    bytes::lemma_le_round_trip(r.inode as nat, 8);
    bytes::lemma_le_round_trip(r.chunk_seq as nat, 8);
    bytes::lemma_le_round_trip(r.checksum as nat, 4);
    bytes::lemma_le_round_trip(r.payload.len(), 4);
    assert(h.subrange(0, 4) =~= wire::u32_bytes(RECORD_MAGIC));
    assert(h.subrange(4, 12) =~= wire::u64_bytes(r.inode));
    assert(h.subrange(12, 20) =~= wire::u64_bytes(r.chunk_seq));
    assert(h.subrange(20, 24) =~= wire::u32_bytes(r.checksum));
    assert(h.subrange(24, 28) =~= wire::u32_bytes(wire::len32(r.payload.len())));
}

/// A scan of a disk that nothing was written to finds nothing and starts at
/// the start.
pub proof fn scan_of_blank_finds_nothing(contents: Seq<u8>, base: int)
    requires
        0 <= base,
        blank(contents, base),
    ensures
        scanned(contents, base) == (ScanView {
            records: Seq::empty(),
            resume_at: 0,
            corruption_at: None,
        }),
{
    lemma_blank_is_no_record(contents, base, 0);
    assert(records_of(Seq::empty()) =~= Seq::<RecordView>::empty());
}

/// A record with the right checksum, appended where a scan says to go on: a
/// scan then finds the same records and the new one, and goes on behind it.
/// The space behind is as blank as it was, so the law applies again.
pub proof fn scan_finds_what_was_appended(contents: Seq<u8>, base: int, r: RecordView)
    requires
        0 <= base,
        r == record(r.inode, r.chunk_seq, r.payload),
        r.payload.len() <= u32::MAX,
        blank(contents, base + scanned(contents, base).resume_at),
        scanned(contents, base).resume_at + record_bytes(r).len() <= SEGMENT_SIZE_BYTES,
        base + scanned(contents, base).resume_at + record_bytes(r).len() <= u64::MAX,
    ensures
        ({
            let before = scanned(contents, base);
            let after = disk::written(contents, base + before.resume_at, record_bytes(r));
            &&& scanned(after, base) == (ScanView {
                records: before.records.push(r),
                resume_at: before.resume_at + record_bytes(r).len(),
                corruption_at: None,
            })
            &&& blank(after, base + scanned(after, base).resume_at)
        }),
{
    let f = format();
    let found = framing::scan_log(f, contents, base);
    let at = found.resume_at;
    let h = header_bytes(r);
    let after = disk::written(contents, base + at, h + r.payload);
    lemma_record_entry(r);
    framing::lemma_scan_after_append(f, contents, base, h, r.payload);
    let next = at + h.len() + r.payload.len();
    assert(blank(after, base + next));
    lemma_blank_is_no_record(after, base, next);
    let entries = found.entries.push((h, r.payload));
    assert(entries + Seq::<framing::Entry>::empty() =~= entries);
    assert(records_of(entries) =~= records_of(found.entries).push(r));
}

/// A record that was cut off while it was written is not found, whole records
/// before it are, and nothing is called corrupt.
pub proof fn scan_drops_a_torn_record(contents: Seq<u8>, base: int, r: RecordView, cut: int)
    requires
        0 <= base,
        r.payload.len() <= u32::MAX,
        ({
            let at = base + scanned(contents, base).resume_at;
            at <= cut < at + record_bytes(r).len()
        }),
    ensures
        ({
            let before = scanned(contents, base);
            let after = disk::written(contents, base + before.resume_at, record_bytes(r));
            scanned(after.take(cut), base) == (ScanView {
                records: before.records,
                resume_at: before.resume_at,
                corruption_at: None,
            })
        }),
{
    lemma_record_entry(r);
    framing::lemma_scan_cut_off(format(), contents, base, header_bytes(r), r.payload, cut);
}

/// A whole record whose payload does not match its checksum ends the scan and
/// is reported.
pub proof fn scan_reports_a_corrupt_record(contents: Seq<u8>, base: int, r: RecordView)
    requires
        0 <= base,
        r.checksum != crc32c::crc(r.payload),
        r.payload.len() <= u32::MAX,
        scanned(contents, base).resume_at + record_bytes(r).len() <= SEGMENT_SIZE_BYTES,
        base + scanned(contents, base).resume_at + record_bytes(r).len() <= u64::MAX,
    ensures
        ({
            let before = scanned(contents, base);
            let after = disk::written(contents, base + before.resume_at, record_bytes(r));
            scanned(after, base) == (ScanView {
                records: before.records,
                resume_at: before.resume_at,
                corruption_at: Some(before.resume_at),
            })
        }),
{
    lemma_record_entry(r);
    framing::lemma_scan_after_unsound(format(), contents, base, header_bytes(r), r.payload);
}

/// A record is a mark, the inode, the chunk's place, the checksum and the length,
/// in that order, and the payload behind them.
pub proof fn a_record_has_its_parts_in_order(inode: InodeId, chunk_seq: u64, payload: Seq<u8>)
    requires
        payload.len() <= u32::MAX,
    ensures
        ({
            let b = record_bytes(record(inode, chunk_seq, payload));
            &&& b.len() == 28 + payload.len()
            &&& b.skip(28) == payload
            &&& bytes::le_value(b.subrange(0, 4)) == 0x5441_5243
            &&& bytes::le_value(b.subrange(4, 12)) == inode
            &&& bytes::le_value(b.subrange(12, 20)) == chunk_seq
            &&& bytes::le_value(b.subrange(20, 24)) == crc32c::crc(payload)
            &&& bytes::le_value(b.subrange(24, 28)) == payload.len()
        }),
{
    let r = record(inode, chunk_seq, payload);
    let b = record_bytes(r);
    let h = header_bytes(r);
    bytes::lemma_pow256_values();
    bytes::lemma_le_round_trip(RECORD_MAGIC as nat, 4);
    bytes::lemma_le_round_trip(inode as nat, 8);
    bytes::lemma_le_round_trip(chunk_seq as nat, 8);
    bytes::lemma_le_round_trip(r.checksum as nat, 4);
    bytes::lemma_le_round_trip(payload.len(), 4);
    assert(b.skip(28) =~= payload);
    assert(b.subrange(0, 4) =~= wire::u32_bytes(RECORD_MAGIC));
    assert(b.subrange(4, 12) =~= wire::u64_bytes(inode));
    assert(b.subrange(12, 20) =~= wire::u64_bytes(chunk_seq));
    assert(b.subrange(20, 24) =~= wire::u32_bytes(r.checksum));
    assert(b.subrange(24, 28) =~= wire::u32_bytes(wire::len32(payload.len())));
}

/// A cursor and the room behind it make a segment of 256 MiB; past its end there
/// is no room.
pub proof fn room_ends_with_the_segment(cursor: u64)
    ensures
        room(cursor) >= 0,
        cursor <= 0x1000_0000 ==> room(cursor) + cursor == 0x1000_0000,
        cursor > 0x1000_0000 ==> room(cursor) == 0,
{
}

} // verus!
