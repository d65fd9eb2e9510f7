//! The framing of the metadata log: one frame per encoded operation.

use crate::bytes;
use crate::crc32c;
use crate::disk::{self, Disk, DiskError, DiskErrorKind};
use crate::framing;
use crate::proto;
use crate::segment;
use crate::wire;
use vstd::prelude::*;

verus! {

broadcast use crate::bytes::lemma_le_len;

pub const WAL_MAGIC: u32 = 0x5741_4c31;

/// `magic(4) len(4) checksum(4)`.
pub const HEADER_LEN: usize = 12;

/// The room that a disk sets aside for the log.
pub const WAL_CAPACITY_BYTES: u64 = 64 * 1024 * 1024;

pub open spec fn header_bytes(payload: Seq<u8>) -> Seq<u8> {
    wire::u32_bytes(WAL_MAGIC) + wire::u32_bytes(wire::len32(payload.len())) + wire::u32_bytes(
        crc32c::crc(payload),
    )
}

pub open spec fn frame_bytes(payload: Seq<u8>) -> Seq<u8> {
    header_bytes(payload) + payload
}

/// How frames look in the log.
pub open spec fn format() -> framing::Format {
    framing::Format {
        header_len: HEADER_LEN as nat,
        capacity: WAL_CAPACITY_BYTES as nat,
        payload_len: |h: Seq<u8>|
            if bytes::le_value(h.subrange(0, 4)) == WAL_MAGIC {
                Some(bytes::le_value(h.subrange(4, 8)))
            } else {
                None
            },
        sound: |h: Seq<u8>, p: Seq<u8>| bytes::le_value(h.subrange(8, 12)) == crc32c::crc(p),
    }
}

/// What a scan of the log finds: the payloads in the order in which they were
/// written.
#[verifier::ext_equal]
pub struct WalScanView {
    pub entries: Seq<Seq<u8>>,
    pub resume_at: nat,
    pub corruption_at: Option<nat>,
}

pub open spec fn payloads(es: Seq<framing::Entry>) -> Seq<Seq<u8>> {
    es.map_values(|e: framing::Entry| e.1)
}

/// What a scan of the log at `base` finds.
pub open spec fn scanned(contents: Seq<u8>, base: int) -> WalScanView {
    let found = framing::scan_log(format(), contents, base);
    WalScanView {
        entries: payloads(found.entries),
        resume_at: found.resume_at,
        corruption_at: found.corruption_at,
    }
}

fn frame(payload: &[u8]) -> (v: Vec<u8>)
    ensures
        v@ == frame_bytes(payload@),
{
    let checksum: u32 = crc32c::checksum(payload);
    let mut v: Vec<u8> = Vec::new();
    bytes::push_le(&mut v, WAL_MAGIC as u128, 4);
    let n: u64 = payload.len() as u64;
    assert(n as u32 == n % 0x1_0000_0000) by (bit_vector);
    bytes::push_le(&mut v, (n as u32) as u128, 4);
    bytes::push_le(&mut v, checksum as u128, 4);
    assert(v@ =~= header_bytes(payload@));
    v.extend_from_slice(payload);
    assert(v@ =~= frame_bytes(payload@));
    v
}

/// The bytes of one log entry: the same for every disk that it goes to.
pub fn build_frame(payload: &[u8]) -> (v: Vec<u8>)
    ensures
        v@ == frame_bytes(payload@),
{
    frame(payload)
}

/// What a scan of the log found.
#[derive(Debug)]
pub struct WalScanResult {
    pub entries: Vec<Vec<u8>>,
    /// Where the next frame goes, counted from the start of the log.
    pub resume_at: u64,
    /// Where a frame starts that is whole and does not match its checksum.
    pub corruption_at: Option<u64>,
}

impl View for WalScanResult {
    type V = WalScanView;

    open spec fn view(&self) -> WalScanView {
        WalScanView {
            entries: proto::views(self.entries@),
            resume_at: self.resume_at as nat,
            corruption_at: segment::some_nat(self.corruption_at),
        }
    }
}

/// The payload's length and the checksum of the frame with this header; `None`
/// where it is no header.
pub fn parse_header(h: &[u8]) -> (r: Option<(u32, u32)>)
    requires
        h@.len() == HEADER_LEN,
    ensures
        match (format().payload_len)(h@) {
            Some(n) => r matches Some((len, checksum)) && len == n && checksum == bytes::le_value(
                h@.subrange(8, 12),
            ),
            None => r is None,
        },
{
    if bytes::read_le(h, 0, 4) != WAL_MAGIC as u128 {
        return None;
    }
    proof {
        bytes::lemma_pow256_values();
    }
    let len: u32 = bytes::read_le(h, 4, 4) as u32;
    let checksum: u32 = bytes::read_le(h, 8, 4) as u32;
    Some((len, checksum))
}

/// Reads the frames of the log at `base_offset`, up to the end of what was
/// written, an incomplete frame, or one that does not match its checksum. None
/// of these is a failure. An error is one that a read of the disk gave, and
/// never that of a read past its end; where there is no room for a header
/// nothing is read.
pub fn scan<D: Disk>(disk: &D, base_offset: u64) -> (r: Result<WalScanResult, DiskError>)
    ensures
        match r {
            Ok(s) => s@ == scanned(disk.contents(), base_offset as int),
            Err(e) => {
                &&& disk.read_faults().contains(e@)
                &&& e.kind != DiskErrorKind::UnexpectedEof
                &&& base_offset <= u64::MAX - HEADER_LEN
            },
        },
{
    let ghost f = format();
    let ghost c = disk.contents();
    let ghost base = base_offset as int;
    let ghost whole = framing::scan_log(f, c, base);
    let mut cursor: u64 = 0;
    let mut entries: Vec<Vec<u8>> = Vec::new();
    let mut corruption_at: Option<u64> = None;
    let mut seen: Ghost<Seq<framing::Entry>> = Ghost(Seq::empty());
    assert(whole.entries =~= seen@ + whole.entries);
    assert(proto::views(entries@) =~= payloads(seen@));
    loop
        invariant_except_break
            cursor <= WAL_CAPACITY_BYTES,
            corruption_at is None,
            proto::views(entries@) == payloads(seen@),
            ({
                let more = framing::scan_from(f, c, base, cursor as nat);
                whole == (framing::Found { entries: seen@ + more.entries, ..more })
            }),
        invariant
            f == format(),
            c == disk.contents(),
            base == base_offset,
        ensures
            proto::views(entries@) == payloads(whole.entries),
            cursor == whole.resume_at,
            segment::some_nat(corruption_at) == whole.corruption_at,
        decreases WAL_CAPACITY_BYTES - cursor,
    {
        assert(seen@ + Seq::<framing::Entry>::empty() =~= seen@);
        let ghost len = framing::entry_len(f, c, base, cursor as nat);
        if cursor + HEADER_LEN as u64 > WAL_CAPACITY_BYTES {
            break;
        }
        if base_offset > u64::MAX - cursor - HEADER_LEN as u64 {
            break;
        }
        let mut header: Vec<u8> = vec![0u8; 12];
        match disk.read_at(base_offset + cursor, header.as_mut_slice()) {
            Ok(()) => {},
            Err(e) => {
                if e.kind == DiskErrorKind::UnexpectedEof {
                    break;
                }
                return Err(e);
            },
        }
        let ghost at = base + cursor;
        assert(header@ == c.subrange(at, at + 12));
        let (len, checksum): (u64, u32) = match parse_header(header.as_slice()) {
            Some((len, checksum)) => (len as u64, checksum),
            None => {
                break;
            },
        };
        if cursor + HEADER_LEN as u64 + len > WAL_CAPACITY_BYTES {
            break;
        }
        if base_offset > u64::MAX - cursor - HEADER_LEN as u64 - len {
            break;
        }
        let mut payload: Vec<u8> = vec![0u8; len as usize];
        match disk.read_at(base_offset + cursor + HEADER_LEN as u64, payload.as_mut_slice()) {
            Ok(()) => {},
            Err(e) => {
                if e.kind == DiskErrorKind::UnexpectedEof {
                    break;
                }
                return Err(e);
            },
        }
        let ghost e = framing::entry_at(f, c, base, cursor as nat, len as nat);
        assert(payload@ == e.1);
        assert(header@ == e.0);
        assert(framing::entry_len(f, c, base, cursor as nat) == Some(len as nat));
        if crc32c::checksum(payload.as_slice()) != checksum {
            corruption_at = Some(cursor);
            break;
        }
        let ghost before = entries@;
        let ghost found = seen@;
        let ghost body = payload@;
        entries.push(payload);
        cursor = cursor + HEADER_LEN as u64 + len;
        proof {
            seen@ = found.push(e);
            let more = framing::scan_from(f, c, base, cursor as nat);
            assert(found + (seq![e] + more.entries) =~= seen@ + more.entries);
            assert(proto::views(entries@) =~= proto::views(before).push(body));
            assert(payloads(seen@) =~= payloads(found).push(body));
        }
    }
    Ok(WalScanResult { entries, resume_at: cursor, corruption_at })
}

// ---------------------------------------------------------------------
// Laws

proof fn lemma_blank_is_no_frame(contents: Seq<u8>, base: int, cursor: nat)
    requires
        0 <= base,
        segment::blank(contents, base + cursor),
    ensures
        framing::entry_len(format(), contents, base, cursor) is None,
{
    let at = base + cursor;
    if framing::present(contents, at, 12) {
        let h = contents.subrange(at, at + 12);
        segment::lemma_zeros(h.subrange(0, 4));
    }
}

proof fn lemma_frame_entry(payload: Seq<u8>)
    requires
        payload.len() <= u32::MAX,
    ensures
        header_bytes(payload).len() == HEADER_LEN,
        (format().payload_len)(header_bytes(payload)) == Some(payload.len()),
        (format().sound)(header_bytes(payload), payload),
{
    let h = header_bytes(payload);
    bytes::lemma_pow256_values();
    bytes::lemma_le_round_trip(WAL_MAGIC as nat, 4);
    bytes::lemma_le_round_trip(payload.len(), 4);
    bytes::lemma_le_round_trip(crc32c::crc(payload) as nat, 4);
    assert(h.subrange(0, 4) =~= wire::u32_bytes(WAL_MAGIC));
    assert(h.subrange(4, 8) =~= wire::u32_bytes(wire::len32(payload.len())));
    assert(h.subrange(8, 12) =~= wire::u32_bytes(crc32c::crc(payload)));
}

/// A scan of a log that nothing was written to finds nothing and starts at the
/// start.
pub proof fn scan_of_blank_finds_nothing(contents: Seq<u8>, base: int)
    requires
        0 <= base,
        segment::blank(contents, base),
    ensures
        scanned(contents, base) == (WalScanView {
            entries: Seq::empty(),
            resume_at: 0,
            corruption_at: None,
        }),
{
    lemma_blank_is_no_frame(contents, base, 0);
    assert(payloads(Seq::empty()) =~= Seq::<Seq<u8>>::empty());
}

/// A frame written where a scan says to go on: a scan then finds the same
/// entries and the new one, and goes on behind it. The space behind is as
/// blank as it was, so the law applies again.
pub proof fn scan_finds_what_was_logged(contents: Seq<u8>, base: int, payload: Seq<u8>)
    requires
        0 <= base,
        segment::blank(contents, base + scanned(contents, base).resume_at),
        scanned(contents, base).resume_at + frame_bytes(payload).len() <= WAL_CAPACITY_BYTES,
        base + scanned(contents, base).resume_at + frame_bytes(payload).len() <= u64::MAX,
    ensures
        ({
            let before = scanned(contents, base);
            let after = disk::written(contents, base + before.resume_at, frame_bytes(payload));
            &&& scanned(after, base) == (WalScanView {
                entries: before.entries.push(payload),
                resume_at: before.resume_at + frame_bytes(payload).len(),
                corruption_at: None,
            })
            &&& segment::blank(after, base + scanned(after, base).resume_at)
        }),
{
    let f = format();
    let found = framing::scan_log(f, contents, base);
    let at = found.resume_at;
    let h = header_bytes(payload);
    let after = disk::written(contents, base + at, h + payload);
    lemma_frame_entry(payload);
    framing::lemma_scan_after_append(f, contents, base, h, payload);
    let next = at + h.len() + payload.len();
    assert(segment::blank(after, base + next));
    lemma_blank_is_no_frame(after, base, next);
    let entries = found.entries.push((h, payload));
    assert(entries + Seq::<framing::Entry>::empty() =~= entries);
    assert(payloads(entries) =~= payloads(found.entries).push(payload));
}

/// A frame that was cut off while it was written is not found, whole frames
/// before it are, and nothing is called corrupt.
pub proof fn scan_drops_a_torn_frame(contents: Seq<u8>, base: int, payload: Seq<u8>, cut: int)
    requires
        0 <= base,
        payload.len() <= u32::MAX,
        ({
            let at = base + scanned(contents, base).resume_at;
            at <= cut < at + frame_bytes(payload).len()
        }),
    ensures
        ({
            let before = scanned(contents, base);
            let after = disk::written(contents, base + before.resume_at, frame_bytes(payload));
            scanned(after.take(cut), base) == (WalScanView {
                entries: before.entries,
                resume_at: before.resume_at,
                corruption_at: None,
            })
        }),
{
    lemma_frame_entry(payload);
    framing::lemma_scan_cut_off(format(), contents, base, header_bytes(payload), payload, cut);
}

/// Up to `at` the log holds frames with these payloads, whatever lies behind
/// them.
pub open spec fn runs_to(contents: Seq<u8>, base: int, at: nat, entries: Seq<Seq<u8>>) -> bool {
    exists|es: Seq<framing::Entry>| #[trigger]
        framing::runs_to(format(), contents, base, 0, at, es) && entries == payloads(es)
}

/// What a scan finds, the log holds up to where the scan stops.
pub proof fn a_scan_runs_to_its_end(contents: Seq<u8>, base: int)
    ensures
        runs_to(
            contents,
            base,
            scanned(contents, base).resume_at,
            scanned(contents, base).entries,
        ),
{
    framing::lemma_scan_runs(format(), contents, base, 0);
}

/// What the log holds up to some place is what a scan finds first.
pub proof fn what_the_log_holds_comes_first(
    contents: Seq<u8>,
    base: int,
    at: nat,
    entries: Seq<Seq<u8>>,
)
    requires
        runs_to(contents, base, at, entries),
    ensures
        entries.is_prefix_of(scanned(contents, base).entries),
{
    let f = format();
    let es = choose|es: Seq<framing::Entry>| #[trigger]
        framing::runs_to(f, contents, base, 0, at, es) && entries == payloads(es);
    framing::lemma_run_is_scanned(f, contents, base, 0, at, es);
    let more = framing::scan_from(f, contents, base, at).entries;
    assert(payloads(es + more).take(entries.len() as int) =~= entries);
}

/// Whatever is written behind that place, the log still holds it.
pub proof fn what_the_log_holds_stays(
    before: Seq<u8>,
    after: Seq<u8>,
    base: int,
    at: nat,
    entries: Seq<Seq<u8>>,
    n: nat,
)
    requires
        0 <= base,
        runs_to(before, base, at, entries),
        disk::same_outside(before, after, base + at, n),
    ensures
        runs_to(after, base, at, entries),
{
    let es = choose|es: Seq<framing::Entry>| #[trigger]
        framing::runs_to(format(), before, base, 0, at, es) && entries == payloads(es);
    framing::lemma_run_stays(format(), before, after, base, 0, at, es);
}

/// A frame written at that place: the log holds it too, whatever lies behind.
pub proof fn the_log_holds_what_was_written(
    contents: Seq<u8>,
    base: int,
    at: nat,
    entries: Seq<Seq<u8>>,
    payload: Seq<u8>,
)
    requires
        0 <= base,
        runs_to(contents, base, at, entries),
        at + frame_bytes(payload).len() <= WAL_CAPACITY_BYTES,
        base + at + frame_bytes(payload).len() <= u64::MAX,
    ensures
        runs_to(
            disk::written(contents, base + at, frame_bytes(payload)),
            base,
            at + frame_bytes(payload).len(),
            entries.push(payload),
        ),
{
    let es = choose|es: Seq<framing::Entry>| #[trigger]
        framing::runs_to(format(), contents, base, 0, at, es) && entries == payloads(es);
    let h = header_bytes(payload);
    lemma_frame_entry(payload);
    framing::lemma_run_after_append(format(), contents, base, at, es, h, payload);
    assert(payloads(es.push((h, payload))) =~= entries.push(payload));
}

/// A frame is a mark, the length and the checksum, in that order, and the payload
/// behind them.
pub proof fn a_frame_has_its_parts_in_order(payload: Seq<u8>)
    requires
        payload.len() <= u32::MAX,
    ensures
        ({
            let b = frame_bytes(payload);
            &&& b.len() == 12 + payload.len()
            &&& b.skip(12) == payload
            &&& bytes::le_value(b.subrange(0, 4)) == 0x5741_4c31
            &&& bytes::le_value(b.subrange(4, 8)) == payload.len()
            &&& bytes::le_value(b.subrange(8, 12)) == crc32c::crc(payload)
        }),
{
    broadcast use bytes::lemma_le_len;

    let b = frame_bytes(payload);
    bytes::lemma_pow256_values();
    bytes::lemma_le_round_trip(WAL_MAGIC as nat, 4);
    bytes::lemma_le_round_trip(payload.len(), 4);
    bytes::lemma_le_round_trip(crc32c::crc(payload) as nat, 4);
    assert(b.skip(12) =~= payload);
    assert(b.subrange(0, 4) =~= wire::u32_bytes(WAL_MAGIC));
    assert(b.subrange(4, 8) =~= wire::u32_bytes(wire::len32(payload.len())));
    assert(b.subrange(8, 12) =~= wire::u32_bytes(crc32c::crc(payload)));
}

/// A whole frame whose payload does not match its checksum ends the scan and is
/// reported.
pub proof fn scan_reports_a_corrupt_frame(
    contents: Seq<u8>,
    base: int,
    header: Seq<u8>,
    payload: Seq<u8>,
)
    requires
        0 <= base,
        header.len() == 12,
        bytes::le_value(header.subrange(0, 4)) == 0x5741_4c31,
        bytes::le_value(header.subrange(4, 8)) == payload.len(),
        bytes::le_value(header.subrange(8, 12)) != crc32c::crc(payload),
        scanned(contents, base).resume_at + 12 + payload.len() <= 0x400_0000,
        base + scanned(contents, base).resume_at + 12 + payload.len() <= u64::MAX,
    ensures
        ({
            let before = scanned(contents, base);
            let after = disk::written(contents, base + before.resume_at, header + payload);
            scanned(after, base) == (WalScanView {
                entries: before.entries,
                resume_at: before.resume_at,
                corruption_at: Some(before.resume_at),
            })
        }),
{
    framing::lemma_scan_after_unsound(format(), contents, base, header, payload);
}

} // verus!
