use std::sync::{Arc, Mutex};
use tartine::disk::{Disk, DiskError, DiskErrorKind};
use tartine::wal::{build_frame, scan, WAL_CAPACITY_BYTES};

/// A disk in memory. Its clones are handles of the same disk.
#[derive(Clone)]
struct MemDisk(Arc<Mutex<Vec<u8>>>);

impl MemDisk {
    fn create(capacity: usize) -> Self {
        MemDisk(Arc::new(Mutex::new(vec![0; capacity])))
    }

    fn set_len(&self, n: u64) {
        self.0.lock().unwrap().resize(n as usize, 0);
    }
}

impl Disk for MemDisk {
    fn read_at(&self, offset: u64, buf: &mut [u8]) -> Result<(), DiskError> {
        let held = self.0.lock().unwrap();
        let at = offset as usize;
        if offset + buf.len() as u64 > held.len() as u64 {
            return Err(DiskError::past_end());
        }
        buf.copy_from_slice(&held[at..at + buf.len()]);
        Ok(())
    }

    fn write_at(&mut self, offset: u64, buf: &[u8]) -> Result<(), DiskError> {
        let mut held = self.0.lock().unwrap();
        let at = offset as usize;
        if held.len() < at + buf.len() {
            held.resize(at + buf.len(), 0);
        }
        held[at..at + buf.len()].copy_from_slice(buf);
        Ok(())
    }

    fn sync(&mut self) -> Result<(), DiskError> {
        Ok(())
    }

    fn capacity_bytes(&self) -> u64 {
        self.0.lock().unwrap().len() as u64
    }
}

#[test]
fn round_trips_multiple_entries() {
    let mut disk = MemDisk::create(WAL_CAPACITY_BYTES as usize);

    let mut cursor = 0u64;
    for payload in [
        b"first entry".as_slice(),
        b"second".as_slice(),
        b"".as_slice(),
    ] {
        let f = build_frame(payload);
        disk.write_at(cursor, &f).unwrap();
        cursor += f.len() as u64;
    }
    disk.sync().unwrap();

    let result = scan(&disk, 0).unwrap();
    assert_eq!(
        result.entries,
        vec![b"first entry".to_vec(), b"second".to_vec(), b"".to_vec()]
    );
    assert_eq!(result.resume_at, cursor);
    assert!(result.corruption_at.is_none());
}

#[test]
fn recovers_from_truncated_trailing_entry() {
    let mut disk = MemDisk::create(WAL_CAPACITY_BYTES as usize);

    let f1 = build_frame(b"complete entry");
    disk.write_at(0, &f1).unwrap();
    let good_cursor = f1.len() as u64;
    let f2 = build_frame(b"this one gets cut off");
    disk.write_at(good_cursor, &f2).unwrap();
    disk.sync().unwrap();

    disk.set_len(good_cursor + 5);

    let result = scan(&disk, 0).unwrap();
    assert_eq!(result.entries, vec![b"complete entry".to_vec()]);
    assert_eq!(result.resume_at, good_cursor);
    assert!(result.corruption_at.is_none());
}

#[test]
fn the_bytes_of_a_frame() {
    assert_eq!(
        build_frame(b"first entry"),
        b"1LAW\x0b\0\0\0\x34\x3c\xd0\x42first entry"
    );
}

#[test]
fn a_rotten_entry_ends_the_log() {
    let mut disk = MemDisk::create(1000);
    let f1 = build_frame(b"sound");
    let f2 = build_frame(b"rotten");
    disk.write_at(100, &f1).unwrap();
    disk.write_at(100 + f1.len() as u64, &f2).unwrap();
    disk.0.lock().unwrap()[100 + f1.len() + 12] ^= 1;
    let result = scan(&disk, 100).unwrap();
    assert_eq!(result.entries, vec![b"sound".to_vec()]);
    assert_eq!(result.resume_at, f1.len() as u64);
    assert_eq!(result.corruption_at, Some(f1.len() as u64));
}

#[test]
fn a_blank_log_is_empty() {
    let result = scan(&MemDisk::create(64), 0).unwrap();
    assert!(result.entries.is_empty());
    assert_eq!(result.resume_at, 0);
    assert!(result.corruption_at.is_none());
}

#[test]
fn frame_headers_are_told_from_other_bytes() {
    let frame = tartine::wal::build_frame(b"abc");
    let (len, checksum) = tartine::wal::parse_header(&frame[..12]).unwrap();
    assert_eq!((len, checksum), (3, tartine::crc32c::checksum(b"abc")));
    assert_eq!(tartine::wal::parse_header(&[0; 12]), None);
}

/// A disk that cannot be read.
struct GoneDisk;

impl Disk for GoneDisk {
    fn read_at(&self, _offset: u64, _buf: &mut [u8]) -> Result<(), DiskError> {
        Err(DiskError {
            kind: DiskErrorKind::Other,
            message: "gone".to_string(),
            detail: "Gone".to_string(),
        })
    }

    fn write_at(&mut self, _offset: u64, _buf: &[u8]) -> Result<(), DiskError> {
        Ok(())
    }

    fn sync(&mut self) -> Result<(), DiskError> {
        Ok(())
    }

    fn capacity_bytes(&self) -> u64 {
        0
    }
}

/// A scan fails as the disk does. Where there is no room for a header nothing is
/// read.
#[test]
fn a_scan_fails_where_the_disk_does() {
    assert_eq!(scan(&GoneDisk, 0).unwrap_err().message, "gone");
    let found = scan(&GoneDisk, u64::MAX - 11).unwrap();
    assert_eq!((found.entries.len(), found.resume_at), (0, 0));
    let records = tartine::segment::scan(&GoneDisk, u64::MAX - 27).unwrap();
    assert_eq!((records.records.len(), records.resume_at), (0, 0));
    assert_eq!(
        tartine::segment::scan(&GoneDisk, 0).unwrap_err().message,
        "gone"
    );
}
