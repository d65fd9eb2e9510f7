use std::sync::{Arc, Mutex};
use tartine::disk::{Disk, DiskError, DiskErrorKind};
use tartine::segment::{scan, Record, SegmentWriter, HEADER_LEN, SEGMENT_SIZE_BYTES};

/// A disk in memory. Its clones are handles of the same disk.
#[derive(Clone)]
struct MemDisk(Arc<Mutex<Vec<u8>>>);

impl MemDisk {
    fn create(capacity: usize) -> Self {
        MemDisk(Arc::new(Mutex::new(vec![0; capacity])))
    }

    fn set_len(&self, n: u64) {
        self.0.lock().unwrap().resize(n as usize, 0);
    }
}

impl Disk for MemDisk {
    fn read_at(&self, offset: u64, buf: &mut [u8]) -> Result<(), DiskError> {
        let held = self.0.lock().unwrap();
        let at = offset as usize;
        if offset + buf.len() as u64 > held.len() as u64 {
            return Err(DiskError::past_end());
        }
        buf.copy_from_slice(&held[at..at + buf.len()]);
        Ok(())
    }

    fn write_at(&mut self, offset: u64, buf: &[u8]) -> Result<(), DiskError> {
        let mut held = self.0.lock().unwrap();
        let at = offset as usize;
        if held.len() < at + buf.len() {
            held.resize(at + buf.len(), 0);
        }
        held[at..at + buf.len()].copy_from_slice(buf);
        Ok(())
    }

    fn sync(&mut self) -> Result<(), DiskError> {
        Ok(())
    }

    fn capacity_bytes(&self) -> u64 {
        self.0.lock().unwrap().len() as u64
    }
}

#[test]
fn round_trips_multiple_records() {
    let disk = MemDisk::create(4096);
    let mut w = SegmentWriter::new(disk.clone(), 0);
    w.append(&Record::new(1, 0, b"first".to_vec())).unwrap();
    w.append(&Record::new(1, 1, b"second".to_vec())).unwrap();
    w.append(&Record::new(2, 0, b"".to_vec())).unwrap(); // empty payload, exercised deliberately
    w.sync().unwrap();

    let result = scan(&disk, 0).unwrap();
    assert_eq!(result.records.len(), 3);
    assert_eq!(result.records[0].payload, b"first");
    assert_eq!(result.records[1].payload, b"second");
    assert_eq!(result.records[2].payload, b"" as &[u8]);
    assert!(result.corruption_at.is_none());
    assert_eq!(result.resume_at, w.cursor());
}

#[test]
fn recovers_from_truncated_trailing_record() {
    let disk = MemDisk::create(4096);
    let mut w = SegmentWriter::new(disk.clone(), 0);
    w.append(&Record::new(1, 0, b"complete".to_vec())).unwrap();
    let good_cursor = w.cursor();
    w.append(&Record::new(1, 1, b"never finishes".to_vec()))
        .unwrap();
    w.sync().unwrap();

    // A crash in the middle of a write: the disk ends partway through the
    // second record's payload.
    disk.set_len(good_cursor + HEADER_LEN as u64 + 3);

    let result = scan(&disk, 0).unwrap();
    assert_eq!(result.records.len(), 1);
    assert_eq!(result.records[0].payload, b"complete");
    assert!(result.corruption_at.is_none());
    assert_eq!(result.resume_at, good_cursor);
}

#[test]
fn detects_corruption_in_a_fully_present_record() {
    let disk = MemDisk::create(4096);
    let mut w = SegmentWriter::new(disk.clone(), 0);
    w.append(&Record::new(1, 0, b"good".to_vec())).unwrap();
    let mut bad = Record::new(1, 1, b"bitrotted".to_vec());
    bad.checksum ^= 0xffff_ffff; // deliberately wrong
    w.append(&bad).unwrap();
    w.sync().unwrap();

    let result = scan(&disk, 0).unwrap();
    assert_eq!(result.records.len(), 1);
    assert_eq!(result.records[0].payload, b"good");
    assert!(result.corruption_at.is_some());
}

#[test]
fn scan_of_untouched_disk_finds_nothing() {
    let disk = MemDisk::create(4096);
    let result = scan(&disk, 0).unwrap();
    assert!(result.records.is_empty());
    assert_eq!(result.resume_at, 0);
    assert!(result.corruption_at.is_none());
}

#[test]
fn writer_can_resume_after_recovery() {
    let disk = MemDisk::create(4096);
    let mut w = SegmentWriter::new(disk.clone(), 0);
    w.append(&Record::new(1, 0, b"before crash".to_vec()))
        .unwrap();
    w.sync().unwrap();
    drop(w);

    let result = scan(&disk, 0).unwrap();

    let mut w2 = SegmentWriter::resume(disk.clone(), 0, result.resume_at);
    w2.append(&Record::new(1, 1, b"after recovery".to_vec()))
        .unwrap();
    w2.sync().unwrap();

    let result2 = scan(&disk, 0).unwrap();
    assert_eq!(result2.records.len(), 2);
    assert_eq!(result2.records[1].payload, b"after recovery");
}

#[test]
fn the_bytes_of_a_record() {
    let disk = MemDisk::create(64);
    let mut w = SegmentWriter::new(disk.clone(), 8);
    assert_eq!(
        w.append(&Record::new(0x0102, 3, b"hello world".to_vec()))
            .unwrap(),
        8
    );
    assert_eq!(w.cursor(), 39);
    assert_eq!(w.remaining(), SEGMENT_SIZE_BYTES - 39);
    let held = disk.0.lock().unwrap();
    assert_eq!(
        &held[8..47],
        b"CRAT\x02\x01\0\0\0\0\0\0\x03\0\0\0\0\0\0\0\xaa\x65\x94\xc9\x0b\0\0\0hello world"
    );
}

#[test]
fn a_full_segment_refuses_a_record() {
    let disk = MemDisk::create(0);
    let mut w = SegmentWriter::resume(disk, 0, SEGMENT_SIZE_BYTES - 30);
    let e = w.append(&Record::new(1, 0, b"xyz".to_vec())).unwrap_err();
    assert_eq!(e.kind, DiskErrorKind::WriteZero);
    assert_eq!(e.message, "segment full");
    assert_eq!(w.cursor(), SEGMENT_SIZE_BYTES - 30);
    assert_eq!(w.append(&Record::new(1, 0, b"xy".to_vec())).unwrap(), SEGMENT_SIZE_BYTES - 30);
    assert_eq!(w.remaining(), 0);
}

#[test]
fn corruption_is_located() {
    let disk = MemDisk::create(4096);
    let mut w = SegmentWriter::new(disk.clone(), 0);
    w.append(&Record::new(1, 0, b"good".to_vec())).unwrap();
    let at = w.cursor();
    w.append(&Record::new(1, 1, b"rotten".to_vec())).unwrap();
    w.append(&Record::new(1, 2, b"behind".to_vec())).unwrap();
    disk.0.lock().unwrap()[at as usize + HEADER_LEN] ^= 1;
    let result = scan(&disk, 0).unwrap();
    assert_eq!(result.records.len(), 1);
    assert_eq!(result.corruption_at, Some(at));
    assert_eq!(result.resume_at, at);
}

#[test]
fn headers_are_told_from_other_bytes() {
    let mut h = vec![0u8; 28];
    assert_eq!(tartine::segment::parse_header(&h), None);
    h[0..4].copy_from_slice(&0x5441_5243u32.to_le_bytes());
    h[4..12].copy_from_slice(&7u64.to_le_bytes());
    h[12..20].copy_from_slice(&8u64.to_le_bytes());
    h[20..24].copy_from_slice(&9u32.to_le_bytes());
    h[24..28].copy_from_slice(&10u32.to_le_bytes());
    assert_eq!(tartine::segment::parse_header(&h), Some((7, 8, 9, 10)));
}
