use std::collections::HashMap;
use std::sync::{Arc, Mutex};
use tartine::disk::{Disk, DiskError, DiskErrorKind};
use tartine::fs::{
    convert_answer, default_redundancy, directory_lines, errno_for, get_state, listed_kind,
    parse_control, Control, Errno, FileKind, TartineFs,
};
use tartine::ioctl::{
    decode_set_redundancy, encode_set_redundancy, TARTINE_CONVERT_FLAG_WAIT,
    TARTINE_IOC_GET_REDUNDANCY, TARTINE_IOC_GET_STATE, TARTINE_IOC_MAKE_WRITABLE,
    TARTINE_IOC_SET_REDUNDANCY, TARTINE_MODE_APPEND_ONLY, TARTINE_MODE_CONVERTING,
    TARTINE_MODE_WRITABLE,
};
use tartine::pool::{
    Pool, PoolError, DISK_FILE_CAPACITY_BYTES, ROOT_INODE, SEGMENT_BASE_OFFSET, WAL_BASE_OFFSET,
};
use tartine::proto::{DiskClass, RedundancyScheme, ReplicaSlot};

/// The bytes of a disk in memory, page by page. What was never written is
/// zeros.
struct Pages {
    pages: HashMap<u64, Vec<u8>>,
    len: u64,
    fail: bool,
}

/// A handle of a disk in memory, for its data or for its log. Each refuses the
/// other's part.
#[derive(Clone)]
struct MemDisk {
    held: Arc<Mutex<Pages>>,
    log: bool,
}

const PAGE: u64 = 4096;

impl MemDisk {
    fn create() -> Self {
        MemDisk {
            held: Arc::new(Mutex::new(Pages {
                pages: HashMap::new(),
                len: DISK_FILE_CAPACITY_BYTES,
                fail: false,
            })),
            log: false,
        }
    }

    fn log_of(&self) -> Self {
        MemDisk {
            held: self.held.clone(),
            log: true,
        }
    }

    fn set_fail(&self, fail: bool) {
        self.held.lock().unwrap().fail = fail;
    }

    fn check(&self, offset: u64, n: u64) -> Result<(), DiskError> {
        let end = offset + n;
        let inside = if self.log {
            offset >= WAL_BASE_OFFSET && end <= SEGMENT_BASE_OFFSET
        } else {
            end <= WAL_BASE_OFFSET || offset >= SEGMENT_BASE_OFFSET
        };
        if self.held.lock().unwrap().fail || !inside {
            return Err(DiskError {
                kind: DiskErrorKind::Other,
                message: "simulated disk failure".to_string(),
                detail: "simulated".to_string(),
            });
        }
        Ok(())
    }
}

impl Disk for MemDisk {
    fn read_at(&self, offset: u64, buf: &mut [u8]) -> Result<(), DiskError> {
        self.check(offset, buf.len() as u64)?;
        let held = self.held.lock().unwrap();
        if offset + buf.len() as u64 > held.len {
            return Err(DiskError::past_end());
        }
        for (i, b) in buf.iter_mut().enumerate() {
            let at = offset + i as u64;
            *b = match held.pages.get(&(at / PAGE)) {
                Some(page) => page[(at % PAGE) as usize],
                None => 0,
            };
        }
        Ok(())
    }

    fn write_at(&mut self, offset: u64, buf: &[u8]) -> Result<(), DiskError> {
        self.check(offset, buf.len() as u64)?;
        let mut held = self.held.lock().unwrap();
        for (i, b) in buf.iter().enumerate() {
            let at = offset + i as u64;
            let page = held
                .pages
                .entry(at / PAGE)
                .or_insert_with(|| vec![0; PAGE as usize]);
            page[(at % PAGE) as usize] = *b;
        }
        held.len = held.len.max(offset + buf.len() as u64);
        Ok(())
    }

    fn sync(&mut self) -> Result<(), DiskError> {
        Ok(())
    }

    fn capacity_bytes(&self) -> u64 {
        self.held.lock().unwrap().len
    }
}

/// The handles of the logs: those of the first two disks.
fn logs(disks: &[MemDisk]) -> Vec<MemDisk> {
    disks.iter().take(2).map(|d| d.log_of()).collect()
}

fn disks(n: usize) -> Vec<MemDisk> {
    (0..n).map(|_| MemDisk::create()).collect()
}

fn database() -> redb::Database {
    redb::Database::builder()
        .create_with_backend(redb::backends::InMemoryBackend::new())
        .unwrap()
}

fn mounted(disks: &[MemDisk]) -> TartineFs<MemDisk> {
    TartineFs::new(Pool::format(disks.to_vec(), logs(disks), database(), 5).unwrap())
}

fn state(mode: u32, size: u64) -> Vec<u8> {
    let mut v = vec![mode as u8, 0, 0, 0, 0, 0, 0, 0];
    v.extend(size.to_le_bytes());
    v.extend(size.to_le_bytes());
    v
}

#[test]
fn a_file_through_its_whole_life() {
    let mut fs = mounted(&disks(2));
    let a = fs.create(ROOT_INODE, "f", 0o100640, 1000, 100, 77).unwrap();
    assert_eq!(a.kind, FileKind::RegularFile);
    assert_eq!((a.perm, a.uid, a.gid, a.mtime_unix), (0o640, 1000, 100, 77));
    assert_eq!((a.size, a.blocks, a.nlink, a.blksize), (0, 0, 1, 4096));
    let ino = a.ino;

    assert_eq!(fs.write(ino, 0, b"hello\n").unwrap(), 6);
    assert_eq!(fs.write(ino, 6, b"world\n").unwrap(), 6);
    assert_eq!(fs.read(ino, 0, 100).unwrap(), b"hello\nworld\n");
    assert_eq!(fs.getattr(ino).unwrap().size, 12);
    assert_eq!(fs.getattr(ino).unwrap().blocks, 1);
    assert_eq!(fs.lookup(ROOT_INODE, "f").unwrap(), fs.getattr(ino).unwrap());

    // neither overwritten nor truncated
    assert_eq!(fs.write(ino, 2, b"L"), Err(Errno::EPERM));
    assert_eq!(fs.setattr(ino, Some(0)), Err(Errno::EPERM));
    assert_eq!(fs.setattr(ino, Some(12)).unwrap().size, 12);
    assert_eq!(fs.setattr(ino, None).unwrap().size, 12);
    assert_eq!(
        fs.ioctl(ino, TARTINE_IOC_GET_STATE, &[]).unwrap(),
        state(TARTINE_MODE_APPEND_ONLY, 12)
    );

    let wait = TARTINE_CONVERT_FLAG_WAIT.to_le_bytes();
    assert_eq!(
        fs.ioctl(ino, TARTINE_IOC_MAKE_WRITABLE, &wait).unwrap(),
        Vec::<u8>::new()
    );
    assert_eq!(
        fs.ioctl(ino, TARTINE_IOC_GET_STATE, &[]).unwrap(),
        state(TARTINE_MODE_WRITABLE, 12)
    );
    assert_eq!(fs.read(ino, 0, 100).unwrap(), b"hello\nworld\n");
    assert_eq!(fs.write(ino, 2, b"L").unwrap(), 1);
    assert_eq!(fs.read(ino, 1, 4).unwrap(), b"eLlo");
    assert!(fs.setattr(ino, Some(0)).is_ok());

    // a conversion is not made twice
    assert_eq!(
        fs.ioctl(ino, TARTINE_IOC_MAKE_WRITABLE, &wait),
        Err(Errno::EALREADY)
    );
    assert_eq!(fs.unlink(ROOT_INODE, "f"), Ok(()));
    assert_eq!(fs.lookup(ROOT_INODE, "f"), Err(Errno::ENOENT));
    assert_eq!(fs.unlink(ROOT_INODE, "f"), Ok(()));
}

#[test]
fn a_conversion_that_nobody_waits_for() {
    let mut fs = mounted(&disks(2));
    let ino = fs.create(ROOT_INODE, "f", 0o644, 0, 0, 0).unwrap().ino;
    fs.write(ino, 0, b"abc").unwrap();
    assert_eq!(fs.make_writable(ino, false), Ok(()));
    assert_eq!(
        fs.ioctl(ino, TARTINE_IOC_GET_STATE, &[]).unwrap(),
        state(TARTINE_MODE_CONVERTING, 3)
    );
    assert_eq!(fs.write(ino, 0, b"x"), Err(Errno::EAGAIN));
    assert_eq!(fs.write(ino, 3, b"def").unwrap(), 3);
    assert_eq!(fs.read(ino, 0, 9).unwrap(), b"abcdef");
    assert_eq!(fs.setattr(ino, Some(1)), Err(Errno::EPERM));
}

#[test]
fn names_are_taken_once() {
    let mut fs = mounted(&disks(2));
    let first = fs.create(ROOT_INODE, "f", 0o644, 0, 0, 0).unwrap();
    assert_eq!(
        fs.create(ROOT_INODE, "f", 0o644, 0, 0, 0),
        Err(Errno::EEXIST)
    );
    let second = fs.create(ROOT_INODE, "g", 0o644, 0, 0, 0).unwrap();
    assert_eq!(second.ino, first.ino + 1);
}

#[test]
fn listings_go_on_where_they_stopped() {
    let mut fs = mounted(&disks(1));
    let b = fs.create(ROOT_INODE, "b", 0o644, 0, 0, 0).unwrap().ino;
    let a = fs.create(ROOT_INODE, "a", 0o644, 0, 0, 0).unwrap().ino;
    let all = fs.readdir(ROOT_INODE, 0).unwrap();
    let seen: Vec<(u64, u64, FileKind, &str)> = all
        .iter()
        .map(|e| (e.ino, e.next, e.kind, e.name.as_str()))
        .collect();
    assert_eq!(
        seen,
        vec![
            (ROOT_INODE, 1, FileKind::Directory, "."),
            (ROOT_INODE, 2, FileKind::Directory, ".."),
            (a, 3, FileKind::RegularFile, "a"),
            (b, 4, FileKind::RegularFile, "b"),
        ]
    );
    let rest = fs.readdir(ROOT_INODE, 3).unwrap();
    assert_eq!(rest.len(), 1);
    assert_eq!(rest[0], all[3]);
    assert!(fs.readdir(ROOT_INODE, 4).unwrap().is_empty());
    assert!(fs.readdir(ROOT_INODE, u64::MAX).unwrap().is_empty());
}

#[test]
fn the_root_is_a_directory() {
    let fs = mounted(&disks(2));
    let a = fs.getattr(ROOT_INODE).unwrap();
    assert_eq!(a.kind, FileKind::Directory);
    assert_eq!((a.perm, a.mtime_unix), (0o755, 5));
}

#[test]
fn redundancy_is_set_and_read_back() {
    let mut fs = mounted(&disks(3));
    let ino = fs.create(ROOT_INODE, "f", 0o644, 0, 0, 0).unwrap().ino;
    let got = fs.ioctl(ino, TARTINE_IOC_GET_REDUNDANCY, &[]).unwrap();
    assert_eq!(
        decode_set_redundancy(&got),
        Some(RedundancyScheme::Replicated(vec![
            ReplicaSlot::AnyOfClass(None);
            2
        ]))
    );
    let scheme = RedundancyScheme::Replicated(vec![ReplicaSlot::AnyOfClass(Some(DiskClass::Hdd))]);
    let wire = encode_set_redundancy(&scheme);
    assert_eq!(
        fs.ioctl(ino, TARTINE_IOC_SET_REDUNDANCY, &wire).unwrap(),
        Vec::<u8>::new()
    );
    let got = fs.ioctl(ino, TARTINE_IOC_GET_REDUNDANCY, &[]).unwrap();
    assert_eq!(got, wire);

    let coded = encode_set_redundancy(&RedundancyScheme::ErasureCoded {
        data_shards: 4,
        parity_shards: 2,
    });
    assert_eq!(
        fs.ioctl(ino, TARTINE_IOC_SET_REDUNDANCY, &coded),
        Err(Errno::EOPNOTSUPP)
    );
    assert_eq!(
        fs.ioctl(ino, TARTINE_IOC_SET_REDUNDANCY, &[0; 3]),
        Err(Errno::EINVAL)
    );
    assert_eq!(
        fs.ioctl(999, TARTINE_IOC_SET_REDUNDANCY, &wire),
        Err(Errno::EIO)
    );
}

#[test]
fn what_is_missing_and_what_is_malformed() {
    let mut fs = mounted(&disks(2));
    assert_eq!(fs.getattr(99), Err(Errno::ENOENT));
    assert_eq!(fs.setattr(99, Some(1)), Err(Errno::ENOENT));
    assert_eq!(fs.read(99, 0, 1), Err(Errno::ENOENT));
    assert_eq!(fs.write(99, 0, b"x"), Err(Errno::ENOENT));
    assert_eq!(fs.lookup(ROOT_INODE, "x"), Err(Errno::ENOENT));
    assert_eq!(fs.ioctl(99, TARTINE_IOC_GET_STATE, &[]), Err(Errno::ENOENT));
    assert_eq!(
        fs.ioctl(99, TARTINE_IOC_GET_REDUNDANCY, &[]),
        Err(Errno::ENOENT)
    );
    assert_eq!(
        fs.ioctl(99, TARTINE_IOC_MAKE_WRITABLE, &[0; 4]),
        Err(Errno::EALREADY)
    );
    assert_eq!(
        fs.ioctl(ROOT_INODE, TARTINE_IOC_MAKE_WRITABLE, &[0; 3]),
        Err(Errno::EINVAL)
    );
    assert_eq!(fs.ioctl(ROOT_INODE, 0x1234, &[]), Err(Errno::ENOTTY));
    assert_eq!(fs.write(ROOT_INODE, u64::MAX, b"x"), Err(Errno::EFBIG));
}

#[test]
fn a_file_that_cannot_be_placed_has_no_space() {
    let mut fs = mounted(&disks(1));
    let ino = fs.create(ROOT_INODE, "f", 0o644, 0, 0, 0).unwrap().ino;
    fs.set_redundancy(
        ino,
        RedundancyScheme::Replicated(vec![ReplicaSlot::AnyOfClass(None); 2]),
    )
    .unwrap();
    assert_eq!(fs.write(ino, 0, b"x"), Err(Errno::ENOSPC));
}

#[test]
fn a_failing_disk_answers_with_an_io_error() {
    let held = disks(1);
    let mut fs = mounted(&held);
    let ino = fs.create(ROOT_INODE, "f", 0o644, 0, 0, 0).unwrap().ino;
    fs.write(ino, 0, b"abc").unwrap();
    held[0].set_fail(true);
    assert_eq!(fs.read(ino, 0, 3), Err(Errno::EIO));
    assert_eq!(fs.write(ino, 3, b"x"), Err(Errno::EIO));
    assert_eq!(
        fs.create(ROOT_INODE, "g", 0o644, 0, 0, 0),
        Err(Errno::EIO)
    );
    assert_eq!(fs.unlink(ROOT_INODE, "f"), Err(Errno::EIO));
    held[0].set_fail(false);
    assert_eq!(fs.read(ino, 0, 3).unwrap(), b"abc");
}

#[test]
fn errors_have_their_numbers() {
    assert_eq!(errno_for(&PoolError::NotFound), Errno::ENOENT);
    assert_eq!(errno_for(&PoolError::WrongMode), Errno::EPERM);
    assert_eq!(errno_for(&PoolError::Unplaceable), Errno::ENOSPC);
    assert_eq!(errno_for(&PoolError::NoDisks), Errno::EINVAL);
    assert_eq!(
        errno_for(&PoolError::Io(DiskError::past_end())),
        Errno::EIO
    );
    assert_eq!(PoolError::NotFound.message(), "no such inode");
    assert_eq!(PoolError::NoDisks.message(), "a pool needs at least 1 disk");
    assert_eq!(
        PoolError::WrongMode.message(),
        "operation not valid for this file's current mode"
    );
    assert_eq!(
        PoolError::Io(DiskError::past_end()).message(),
        "I/O error: failed to fill whole buffer"
    );
}

#[test]
fn default_redundancy_follows_the_number_of_disks() {
    for (n, slots) in [(0usize, 0usize), (1, 1), (2, 2), (7, 2)] {
        assert_eq!(
            default_redundancy(n),
            RedundancyScheme::Replicated(vec![ReplicaSlot::AnyOfClass(None); slots])
        );
    }
}

#[test]
fn control_calls_are_told_apart() {
    assert!(matches!(
        parse_control(TARTINE_IOC_MAKE_WRITABLE, &[1, 0, 0, 0]),
        Ok(Control::MakeWritable { wait: true })
    ));
    assert!(matches!(
        parse_control(TARTINE_IOC_MAKE_WRITABLE, &[2, 0, 0, 0, 9]),
        Ok(Control::MakeWritable { wait: false })
    ));
    assert!(matches!(
        parse_control(TARTINE_IOC_GET_STATE, &[]),
        Ok(Control::GetState)
    ));
    assert!(matches!(parse_control(0, &[]), Err(Errno::ENOTTY)));
}

#[test]
fn the_state_of_a_record() {
    let pool = Pool::format(disks(1), logs(&disks(1)), database(), 0).unwrap();
    let s = get_state(&pool.get_inode(ROOT_INODE).unwrap().unwrap());
    assert_eq!(s.mode, TARTINE_MODE_WRITABLE);
    assert_eq!((s._pad, s.bytes_total, s.bytes_converted), (0, 0, 0));
}

#[test]
fn the_superblock_of_a_disk() {
    let roles = tartine::proto::DiskRoles {
        data: true,
        metadata: false,
    };
    let nil = tartine::proto::Uuid::nil();
    let sb = tartine::proto::SuperBlock::new(tartine::proto::Uuid(7), nil, roles, 99);
    assert_eq!((sb.pool_id.0, sb.disk_id.0), (7, 0));
    assert_eq!(
        (sb.format_version, sb.created_at_unix, sb.last_seen_epoch),
        (1, 99, 0)
    );
}

#[test]
fn a_policy_that_no_disk_can_satisfy_has_no_space() {
    let mut fs = mounted(&disks(2)); // all HDD
    let ino = fs.create(ROOT_INODE, "f", 0o644, 0, 0, 0).unwrap().ino;
    let before = fs.ioctl(ino, TARTINE_IOC_GET_REDUNDANCY, &[]).unwrap();
    let ssd = RedundancyScheme::Replicated(vec![ReplicaSlot::AnyOfClass(Some(DiskClass::Ssd))]);
    assert_eq!(
        fs.ioctl(
            ino,
            TARTINE_IOC_SET_REDUNDANCY,
            &encode_set_redundancy(&ssd)
        ),
        Err(Errno::ENOSPC)
    );
    assert_eq!(
        fs.ioctl(ino, TARTINE_IOC_GET_REDUNDANCY, &[]).unwrap(),
        before
    );
}

#[test]
fn answers_follow_what_the_pool_came_back_with() {
    assert_eq!(convert_answer(&Ok(())), Ok(()));
    assert_eq!(
        convert_answer(&Err(PoolError::NotFound)),
        Err(Errno::EALREADY)
    );
    assert_eq!(listed_kind(&Ok(None)), FileKind::RegularFile);

    let mut fs = mounted(&disks(1));
    let taken = fs.create_unless_taken(Ok(Some(9)), ROOT_INODE, "f", 0o644, 0, 0, 0);
    assert_eq!(taken, Err(Errno::EEXIST));
    assert_eq!(fs.lookup(ROOT_INODE, "f"), Err(Errno::ENOENT));
    let made = fs.create_unless_taken(Ok(None), ROOT_INODE, "f", 0o644, 0, 0, 0);
    assert_eq!(made, fs.lookup(ROOT_INODE, "f"));
    assert!(made.is_ok());
}

#[test]
fn lines_of_a_listing() {
    let list = vec![("a".to_string(), 5), ("b".to_string(), 6)];
    let kinds = vec![FileKind::Directory, FileKind::RegularFile];
    let lines = directory_lines(3, &list, &kinds, 1);
    let seen: Vec<(u64, u64, FileKind, &str)> = lines
        .iter()
        .map(|e| (e.ino, e.next, e.kind, e.name.as_str()))
        .collect();
    assert_eq!(
        seen,
        vec![
            (3, 2, FileKind::Directory, ".."),
            (5, 3, FileKind::Directory, "a"),
            (6, 4, FileKind::RegularFile, "b"),
        ]
    );
    assert!(directory_lines(3, &list, &kinds, 4).is_empty());
    assert!(directory_lines(3, &list, &kinds, u64::MAX).is_empty());
}
