use std::collections::HashMap;
use std::sync::{Arc, Mutex};
use tartine::disk::{Disk, DiskError, DiskErrorKind};
use tartine::pool::{
    Pool, PoolError, DISK_FILE_CAPACITY_BYTES, ROOT_INODE, SEGMENT_BASE_OFFSET, S_IFDIR,
    WAL_BASE_OFFSET,
};
use tartine::proto::{
    DataLocator, DiskClass, Extent, InodeMode, MetaGroup, MetaOp, RedundancyScheme, ReplicaSlot,
    Uuid,
};
use tartine::segment;
use tartine::store::{MetaStore, MetaStoreError};

/// The bytes of a disk in memory, page by page. What was never written is
/// zeros.
struct Pages {
    pages: HashMap<u64, Vec<u8>>,
    len: u64,
    fail: bool,
}

/// A handle of a disk in memory, for its data or for its log. Each refuses the
/// other's part.
#[derive(Clone)]
struct MemDisk {
    held: Arc<Mutex<Pages>>,
    log: bool,
}

const PAGE: u64 = 4096;

impl MemDisk {
    fn create() -> Self {
        MemDisk {
            held: Arc::new(Mutex::new(Pages {
                pages: HashMap::new(),
                len: DISK_FILE_CAPACITY_BYTES,
                fail: false,
            })),
            log: false,
        }
    }

    fn log_of(&self) -> Self {
        MemDisk {
            held: self.held.clone(),
            log: true,
        }
    }

    fn set_fail(&self, fail: bool) {
        self.held.lock().unwrap().fail = fail;
    }

    fn check(&self, offset: u64, n: u64) -> Result<(), DiskError> {
        let end = offset + n;
        let inside = if self.log {
            offset >= WAL_BASE_OFFSET && end <= SEGMENT_BASE_OFFSET
        } else {
            end <= WAL_BASE_OFFSET || offset >= SEGMENT_BASE_OFFSET
        };
        if self.held.lock().unwrap().fail || !inside {
            return Err(DiskError {
                kind: DiskErrorKind::Other,
                message: "simulated disk failure".to_string(),
                detail: "simulated".to_string(),
            });
        }
        Ok(())
    }
}

impl Disk for MemDisk {
    fn read_at(&self, offset: u64, buf: &mut [u8]) -> Result<(), DiskError> {
        self.check(offset, buf.len() as u64)?;
        let held = self.held.lock().unwrap();
        if offset + buf.len() as u64 > held.len {
            return Err(DiskError::past_end());
        }
        for (i, b) in buf.iter_mut().enumerate() {
            let at = offset + i as u64;
            *b = match held.pages.get(&(at / PAGE)) {
                Some(page) => page[(at % PAGE) as usize],
                None => 0,
            };
        }
        Ok(())
    }

    fn write_at(&mut self, offset: u64, buf: &[u8]) -> Result<(), DiskError> {
        self.check(offset, buf.len() as u64)?;
        let mut held = self.held.lock().unwrap();
        for (i, b) in buf.iter().enumerate() {
            let at = offset + i as u64;
            let page = held
                .pages
                .entry(at / PAGE)
                .or_insert_with(|| vec![0; PAGE as usize]);
            page[(at % PAGE) as usize] = *b;
        }
        held.len = held.len.max(offset + buf.len() as u64);
        Ok(())
    }

    fn sync(&mut self) -> Result<(), DiskError> {
        Ok(())
    }

    fn capacity_bytes(&self) -> u64 {
        self.held.lock().unwrap().len
    }
}

/// The handles of the logs: those of the first two disks.
fn logs(disks: &[MemDisk]) -> Vec<MemDisk> {
    disks.iter().take(2).map(|d| d.log_of()).collect()
}

fn disks(n: usize) -> Vec<MemDisk> {
    (0..n).map(|_| MemDisk::create()).collect()
}

fn database() -> redb::Database {
    redb::Database::builder()
        .create_with_backend(redb::backends::InMemoryBackend::new())
        .unwrap()
}

fn format_pool(disks: &[MemDisk]) -> Pool<MemDisk> {
    Pool::format(disks.to_vec(), logs(disks), database(), 1_700_000_000).unwrap()
}

fn any_n(n: usize) -> RedundancyScheme {
    RedundancyScheme::Replicated(vec![ReplicaSlot::AnyOfClass(None); n])
}

fn make(pool: &mut Pool<MemDisk>, name: &str, scheme: RedundancyScheme) -> u64 {
    pool.create_file(ROOT_INODE, name, scheme, 0, 0, 0o644, 7)
        .unwrap()
}

#[test]
fn format_creates_root_and_pool_is_immediately_usable() {
    let pool = format_pool(&disks(3));
    let root = pool.get_inode(ROOT_INODE).unwrap().unwrap();
    assert_eq!(root.mode, InodeMode::Writable);
    assert_eq!(pool.readdir(ROOT_INODE).unwrap(), vec![]);
}

#[test]
fn create_append_and_read_back() {
    let mut pool = format_pool(&disks(3));

    let inode = pool
        .create_file(ROOT_INODE, "f", any_n(2), 1000, 1000, 0o644, 7)
        .unwrap();
    pool.append(inode, b"hello ".to_vec()).unwrap();
    pool.append(inode, b"world".to_vec()).unwrap();

    assert_eq!(pool.lookup(ROOT_INODE, "f").unwrap(), Some(inode));
    assert_eq!(pool.read(inode, 0, 100).unwrap(), b"hello world");
    assert_eq!(pool.read(inode, 6, 5).unwrap(), b"world");
    assert_eq!(pool.get_inode(inode).unwrap().unwrap().size, 11);
}

#[test]
fn append_rejects_wrong_mode() {
    let mut pool = format_pool(&disks(2));
    // The root inode is created writable.
    assert!(matches!(
        pool.append(ROOT_INODE, b"x".to_vec()),
        Err(PoolError::WrongMode)
    ));
}

#[test]
fn convert_then_random_write_round_trips() {
    let mut pool = format_pool(&disks(2));

    let inode = make(&mut pool, "f", any_n(2));
    pool.append(inode, b"hello\n".to_vec()).unwrap();
    assert_eq!(pool.read(inode, 0, 100).unwrap(), b"hello\n");

    pool.begin_convert(inode).unwrap();
    assert_eq!(
        pool.get_inode(inode).unwrap().unwrap().mode,
        InodeMode::Converting
    );
    pool.complete_convert(inode).unwrap();
    let rec = pool.get_inode(inode).unwrap().unwrap();
    assert_eq!(rec.mode, InodeMode::Writable);
    assert!(matches!(rec.data, DataLocator::Extents(_)));
    // The conversion must not have changed the content.
    assert_eq!(pool.read(inode, 0, 100).unwrap(), b"hello\n");

    // Overwrite the third byte in place.
    pool.write(inode, 2, b"L").unwrap();
    assert_eq!(pool.read(inode, 0, 100).unwrap(), b"heLlo\n");

    // A write past the end grows the file.
    pool.write(inode, 6, b"more").unwrap();
    assert_eq!(pool.read(inode, 0, 100).unwrap(), b"heLlo\nmore");
}

#[test]
fn append_after_convert_is_rejected() {
    let mut pool = format_pool(&disks(2));
    let inode = make(&mut pool, "f", any_n(2));
    pool.append(inode, b"x".to_vec()).unwrap();
    pool.begin_convert(inode).unwrap();
    pool.complete_convert(inode).unwrap();
    assert!(matches!(
        pool.append(inode, b"y".to_vec()),
        Err(PoolError::WrongMode)
    ));
}

#[test]
fn write_before_convert_is_rejected() {
    let mut pool = format_pool(&disks(2));
    let inode = make(&mut pool, "f", any_n(2));
    pool.append(inode, b"x".to_vec()).unwrap();
    assert!(matches!(
        pool.write(inode, 0, b"y"),
        Err(PoolError::WrongMode)
    ));
}

#[test]
fn survives_reopen_after_crash() {
    let held = disks(3);
    let inode;
    {
        let mut pool = format_pool(&held);
        inode = make(&mut pool, "f", any_n(2));
        pool.append(inode, b"first".to_vec()).unwrap();
        pool.append(inode, b"second".to_vec()).unwrap();
        // Dropped here without a shutdown, as in a crash right after the last
        // append.
    }

    let pool2 = Pool::open(held.clone(), logs(&held), database()).unwrap();
    assert_eq!(pool2.lookup(ROOT_INODE, "f").unwrap(), Some(inode));
    assert_eq!(pool2.read(inode, 0, 100).unwrap(), b"firstsecond");
}

#[test]
fn replication_factor_places_on_distinct_disks() {
    let held = disks(4);
    let mut pool = format_pool(&held);
    let inode = make(&mut pool, "f", any_n(3));
    pool.append(inode, b"triplicated".to_vec()).unwrap();

    let rec = pool.get_inode(inode).unwrap().unwrap();
    let DataLocator::ChunkLog(chunks) = &rec.data else {
        panic!("expected ChunkLog")
    };
    assert_eq!(chunks.len(), 1);
    assert_eq!(chunks[0].replicas.len(), 3);
    let mut disk_ids: Vec<_> = chunks[0].replicas.iter().map(|(id, _)| *id).collect();
    disk_ids.sort_by_key(|id| id.0);
    disk_ids.dedup();
    assert_eq!(
        disk_ids.len(),
        3,
        "3x replication must land on 3 distinct disks"
    );

    // Every replica can be read and has the content.
    for (disk_id, offset) in &chunks[0].replicas {
        let handle = &held[disk_id.0 as usize - 1];
        let mut buf = vec![0u8; b"triplicated".len()];
        handle
            .read_at(
                SEGMENT_BASE_OFFSET + offset + segment::HEADER_LEN as u64,
                &mut buf,
            )
            .unwrap();
        assert_eq!(buf, b"triplicated");
    }
}

#[test]
fn format_rejects_zero_disks() {
    assert!(matches!(
        Pool::<MemDisk>::format(vec![], vec![], database(), 0),
        Err(PoolError::NoDisks)
    ));
    assert!(matches!(
        Pool::<MemDisk>::open(vec![], vec![], database()),
        Err(PoolError::NoDisks)
    ));
}

/// One disk holds both the log and the data.
#[test]
fn format_and_use_single_disk_pool() {
    let mut pool = format_pool(&disks(1));
    assert_eq!(pool.disk_count(), 1);

    // The root's own redundancy is scaled down to one slot.
    let root = pool.get_inode(ROOT_INODE).unwrap().unwrap();
    match root.redundancy {
        RedundancyScheme::Replicated(slots) => assert_eq!(slots.len(), 1),
        other => panic!("expected Replicated, got {other:?}"),
    }

    let inode = make(&mut pool, "f", any_n(1));
    pool.append(inode, b"hello\n".to_vec()).unwrap();
    assert_eq!(pool.read(inode, 0, 100).unwrap(), b"hello\n");

    pool.begin_convert(inode).unwrap();
    pool.complete_convert(inode).unwrap();
    assert_eq!(pool.read(inode, 0, 100).unwrap(), b"hello\n");

    pool.write(inode, 2, b"L").unwrap();
    assert_eq!(pool.read(inode, 0, 100).unwrap(), b"heLlo\n");
}

#[test]
fn unlink_removes_directory_entry() {
    let mut pool = format_pool(&disks(2));
    let inode = make(&mut pool, "f", any_n(2));
    assert_eq!(pool.lookup(ROOT_INODE, "f").unwrap(), Some(inode));
    pool.unlink(ROOT_INODE, "f").unwrap();
    assert_eq!(pool.lookup(ROOT_INODE, "f").unwrap(), None);
}

#[test]
fn the_record_of_the_root() {
    let pool = format_pool(&disks(3));
    let root = pool.get_inode(ROOT_INODE).unwrap().unwrap();
    assert_eq!(root.inode, 1);
    assert_eq!(root.redundancy, any_n(2));
    assert_eq!(root.data, DataLocator::Extents(vec![]));
    assert_eq!(root.unix_mode, S_IFDIR | 0o755);
    assert_eq!(root.mtime_unix, 1_700_000_000);
    assert_eq!((root.uid, root.gid, root.size), (0, 0, 0));
}

#[test]
fn what_is_not_there_is_not_found() {
    let mut pool = format_pool(&disks(2));
    assert!(matches!(pool.read(99, 0, 1), Err(PoolError::NotFound)));
    assert!(matches!(
        pool.append(99, vec![1]),
        Err(PoolError::NotFound)
    ));
    assert!(matches!(
        pool.write(99, 0, b"x"),
        Err(PoolError::NotFound)
    ));
    assert!(matches!(
        pool.complete_convert(99),
        Err(PoolError::NotFound)
    ));
    assert_eq!(
        pool.begin_convert(99).unwrap_err().message(),
        "metadata error: invalid metadata operation: operation referenced an inode that doesn't exist"
    );
    assert_eq!(pool.get_inode(99).unwrap(), None);
}

#[test]
fn more_replicas_than_disks_cannot_be_placed() {
    let mut pool = format_pool(&disks(2));
    let inode = make(&mut pool, "f", any_n(3));
    let e = pool.append(inode, b"x".to_vec()).unwrap_err();
    assert_eq!(e.message(), "could not place all required replicas");
    assert_eq!(pool.get_inode(inode).unwrap().unwrap().size, 0);

    let coded = RedundancyScheme::ErasureCoded {
        data_shards: 4,
        parity_shards: 2,
    };
    pool.set_redundancy(inode, coded).unwrap();
    assert!(matches!(
        pool.append(inode, b"x".to_vec()),
        Err(PoolError::Unplaceable)
    ));
    pool.set_redundancy(inode, any_n(2)).unwrap();
    pool.append(inode, b"x".to_vec()).unwrap();
    assert_eq!(pool.read(inode, 0, 9).unwrap(), b"x");
}

#[test]
fn classes_and_pins_decide_where_data_goes() {
    let held = disks(3);
    let classes = vec![DiskClass::Hdd, DiskClass::Ssd, DiskClass::Hdd];
    let mut pool =
        Pool::format_with_classes(held.clone(), logs(&held), &classes, database(), 0).unwrap();
    let scheme = RedundancyScheme::Replicated(vec![
        ReplicaSlot::AnyOfClass(Some(DiskClass::Ssd)),
        ReplicaSlot::Pinned(Uuid(3)),
    ]);
    let inode = make(&mut pool, "f", scheme);
    pool.append(inode, b"x".to_vec()).unwrap();
    let DataLocator::ChunkLog(chunks) = pool.get_inode(inode).unwrap().unwrap().data else {
        panic!("expected ChunkLog")
    };
    assert_eq!(chunks[0].replicas, vec![(Uuid(2), 0), (Uuid(3), 0)]);
    assert_eq!(chunks[0].checksum, tartine::crc32c::checksum(b"x"));
}

#[test]
fn a_write_past_a_gap_leaves_zeros() {
    let mut pool = format_pool(&disks(2));
    let inode = make(&mut pool, "f", any_n(2));
    pool.begin_convert(inode).unwrap();
    pool.complete_convert(inode).unwrap();
    pool.write(inode, 3, b"x").unwrap();
    assert_eq!(pool.read(inode, 0, 10).unwrap(), b"\0\0\0x");
    assert_eq!(pool.read(inode, 3, 10).unwrap(), b"x");
    assert_eq!(pool.read(inode, 4, 10).unwrap(), b"");
    assert_eq!(pool.read(inode, 400, 10).unwrap(), b"");
}

#[test]
fn a_converting_file_still_takes_appends() {
    let mut pool = format_pool(&disks(2));
    let inode = make(&mut pool, "f", any_n(1));
    pool.append(inode, b"one".to_vec()).unwrap();
    pool.begin_convert(inode).unwrap();
    pool.append(inode, b"two".to_vec()).unwrap();
    pool.complete_convert(inode).unwrap();
    assert_eq!(pool.read(inode, 0, 10).unwrap(), b"onetwo");
    assert!(matches!(
        pool.complete_convert(inode),
        Err(PoolError::WrongMode)
    ));
}

#[test]
fn writable_files_survive_a_reopen() {
    let held = disks(2);
    let inode;
    {
        let mut pool = format_pool(&held);
        inode = make(&mut pool, "f", any_n(2));
        pool.append(inode, b"hello".to_vec()).unwrap();
        pool.begin_convert(inode).unwrap();
        pool.complete_convert(inode).unwrap();
        pool.write(inode, 1, b"E").unwrap();
    }
    let pool = Pool::open(held.clone(), logs(&held), database()).unwrap();
    assert_eq!(pool.read(inode, 0, 10).unwrap(), b"hEllo");
    assert!(pool.has_free_inode());
}

#[test]
fn an_append_after_a_reopen_goes_on_at_the_end() {
    let held = disks(1);
    let (a, b);
    {
        let mut pool = format_pool(&held);
        a = make(&mut pool, "a", any_n(1));
        b = make(&mut pool, "b", any_n(1));
        pool.append(a, b"before".to_vec()).unwrap();
    }
    let mut pool = Pool::open(held.clone(), logs(&held), database()).unwrap();
    pool.append(b, b"behind".to_vec()).unwrap();
    pool.append(a, b"+after".to_vec()).unwrap();
    assert_eq!(pool.read(a, 0, 100).unwrap(), b"before+after");
    assert_eq!(pool.read(b, 0, 100).unwrap(), b"behind");
    // a number that was handed out is not handed out again
    assert_eq!(make(&mut pool, "c", any_n(1)), b + 1);
}

#[test]
fn a_failing_disk_is_reported_and_loses_nothing() {
    let held = disks(2);
    let mut pool = format_pool(&held);
    let inode = make(&mut pool, "f", any_n(2));
    pool.append(inode, b"kept".to_vec()).unwrap();
    held[0].set_fail(true);
    match pool.append(inode, b"lost".to_vec()) {
        Err(PoolError::Io(e)) => assert_eq!(e.message, "simulated disk failure"),
        other => panic!("expected an I/O error, got {other:?}"),
    }
    held[0].set_fail(false);
    assert_eq!(pool.read(inode, 0, 100).unwrap(), b"kept");
    pool.append(inode, b" and more".to_vec()).unwrap();
    assert_eq!(pool.read(inode, 0, 100).unwrap(), b"kept and more");
}

#[test]
fn the_log_is_on_the_first_two_disks() {
    let held = disks(3);
    let mut pool = format_pool(&held);
    make(&mut pool, "f", any_n(1));
    let mut first = vec![0u8; 200];
    let mut second = vec![0u8; 200];
    held[0].log_of().read_at(WAL_BASE_OFFSET, &mut first).unwrap();
    held[1].log_of().read_at(WAL_BASE_OFFSET, &mut second).unwrap();
    assert_eq!(&first[0..4], b"1LAW");
    assert_eq!(first, second);
    held[2].log_of().read_at(WAL_BASE_OFFSET, &mut second).unwrap();
    assert!(second.iter().all(|b| *b == 0));
}

/// A disk that forgets what was not synced when the power goes.
#[derive(Clone)]
struct VolatileDisk {
    cache: MemDisk,
    stable: MemDisk,
    dirty: Arc<Mutex<Vec<(u64, Vec<u8>)>>>,
}

impl VolatileDisk {
    fn create() -> Self {
        VolatileDisk {
            cache: MemDisk::create(),
            stable: MemDisk::create(),
            dirty: Arc::new(Mutex::new(vec![])),
        }
    }

    fn log_of(&self) -> Self {
        VolatileDisk {
            cache: self.cache.log_of(),
            stable: self.stable.log_of(),
            dirty: Arc::new(Mutex::new(vec![])),
        }
    }

    fn after_power_loss(&self) -> MemDisk {
        self.stable.clone()
    }
}

impl Disk for VolatileDisk {
    fn read_at(&self, offset: u64, buf: &mut [u8]) -> Result<(), DiskError> {
        self.cache.read_at(offset, buf)
    }

    fn write_at(&mut self, offset: u64, buf: &[u8]) -> Result<(), DiskError> {
        self.dirty.lock().unwrap().push((offset, buf.to_vec()));
        self.cache.write_at(offset, buf)
    }

    fn sync(&mut self) -> Result<(), DiskError> {
        for (offset, buf) in self.dirty.lock().unwrap().drain(..) {
            self.stable.write_at(offset, &buf)?;
        }
        Ok(())
    }

    fn capacity_bytes(&self) -> u64 {
        self.cache.capacity_bytes()
    }
}

#[test]
fn what_is_acknowledged_survives_a_power_loss() {
    let held: Vec<VolatileDisk> = (0..2).map(|_| VolatileDisk::create()).collect();
    let volatile_logs = held.iter().map(|d| d.log_of()).collect();
    let mut pool = Pool::format(held.clone(), volatile_logs, database(), 0).unwrap();
    let a = pool
        .create_file(ROOT_INODE, "a", any_n(2), 0, 0, 0o644, 0)
        .unwrap();
    let b = pool
        .create_file(ROOT_INODE, "b", any_n(1), 0, 0, 0o644, 0)
        .unwrap();
    pool.append(a, b"kept".to_vec()).unwrap();
    pool.append(b, b"also".to_vec()).unwrap();
    pool.begin_convert(b).unwrap();
    pool.complete_convert(b).unwrap();
    pool.write(b, 4, b" kept").unwrap();
    drop(pool);

    let left: Vec<MemDisk> = held.iter().map(|d| d.after_power_loss()).collect();
    let pool = Pool::open(left.clone(), logs(&left), database()).unwrap();
    assert_eq!(pool.read(a, 0, 100).unwrap(), b"kept");
    assert_eq!(pool.read(b, 0, 100).unwrap(), b"also kept");
    assert_eq!(pool.readdir(ROOT_INODE).unwrap().len(), 2);
}

#[test]
fn an_interrupted_conversion_is_taken_up_again() {
    let held = disks(2);
    let inode;
    {
        let mut pool = format_pool(&held);
        inode = make(&mut pool, "f", any_n(2));
        pool.append(inode, b"hello".to_vec()).unwrap();
        pool.begin_convert(inode).unwrap();
    }
    let mut pool = Pool::open(held.clone(), logs(&held), database()).unwrap();
    assert_eq!(
        pool.get_inode(inode).unwrap().unwrap().mode,
        InodeMode::Converting
    );
    assert_eq!(pool.read(inode, 0, 100).unwrap(), b"hello");
    pool.complete_convert(inode).unwrap();
    assert_eq!(pool.read(inode, 0, 100).unwrap(), b"hello");
}

/// A scan finds no extent, and still nothing is written over one.
#[test]
fn an_append_after_a_reopen_spares_converted_files() {
    let held = disks(2);
    let (a, b);
    {
        let mut pool = format_pool(&held);
        a = make(&mut pool, "a", any_n(2));
        b = make(&mut pool, "b", any_n(2));
        pool.append(a, b"the bytes of a".to_vec()).unwrap();
        pool.begin_convert(a).unwrap();
        pool.complete_convert(a).unwrap();
    }
    let mut pool = Pool::open(held.clone(), logs(&held), database()).unwrap();
    pool.append(b, b"something that is longer than a".to_vec()).unwrap();
    assert_eq!(pool.read(a, 0, 100).unwrap(), b"the bytes of a");
    drop(pool);
    // and again, with a record behind the extent
    let mut pool = Pool::open(held.clone(), logs(&held), database()).unwrap();
    pool.append(b, b", and more".to_vec()).unwrap();
    pool.write(a, 4, b"BYTES").unwrap();
    drop(pool);
    let pool = Pool::open(held.clone(), logs(&held), database()).unwrap();
    assert_eq!(pool.read(a, 0, 100).unwrap(), b"the BYTES of a");
    assert_eq!(
        pool.read(b, 0, 100).unwrap(),
        b"something that is longer than a, and more"
    );
}

/// A slot that no disk of the pool can take is refused when it is set.
#[test]
fn an_unsatisfiable_policy_is_refused() {
    let held = disks(2);
    let mut pool = Pool::format_with_classes(
        held.clone(),
        logs(&held),
        &vec![DiskClass::Hdd, DiskClass::Nvme],
        database(),
        0,
    )
    .unwrap();
    let inode = make(&mut pool, "f", any_n(1));
    for slot in [
        ReplicaSlot::AnyOfClass(Some(DiskClass::Ssd)),
        ReplicaSlot::Pinned(Uuid(3)),
    ] {
        let scheme = RedundancyScheme::Replicated(vec![ReplicaSlot::AnyOfClass(None), slot]);
        assert!(matches!(
            pool.set_redundancy(inode, scheme),
            Err(PoolError::Unplaceable)
        ));
        assert_eq!(pool.get_inode(inode).unwrap().unwrap().redundancy, any_n(1));
    }
    for slot in [
        ReplicaSlot::AnyOfClass(Some(DiskClass::Nvme)),
        ReplicaSlot::Pinned(Uuid(2)),
        ReplicaSlot::AnyOfClass(None),
    ] {
        let scheme = RedundancyScheme::Replicated(vec![slot]);
        pool.set_redundancy(inode, scheme.clone()).unwrap();
        assert_eq!(pool.get_inode(inode).unwrap().unwrap().redundancy, scheme);
    }
}

#[test]
fn what_fits_on_no_disk_has_no_place() {
    let mut pool = format_pool(&disks(1));
    let inode = make(&mut pool, "f", any_n(1));
    let most = segment::SEGMENT_SIZE_BYTES as usize - segment::HEADER_LEN;
    assert!(matches!(
        pool.append(inode, vec![0; most + 1]),
        Err(PoolError::Unplaceable)
    ));
    assert_eq!(pool.get_inode(inode).unwrap().unwrap().size, 0);
}

/// A pool of two disks, the first of which has room for a hundred bytes more.
fn nearly_full() -> Pool<MemDisk> {
    let held = disks(2);
    let mut rec;
    {
        let mut pool = format_pool(&held);
        let inode = make(&mut pool, "high", any_n(1));
        rec = pool.get_inode(inode).unwrap().unwrap();
    }
    // a file that ends a hundred bytes below the end of the first disk
    rec.mode = InodeMode::Writable;
    rec.size = 1;
    rec.data = DataLocator::Extents(vec![Extent {
        file_offset: 0,
        len: 1,
        replicas: vec![(Uuid(1), segment::SEGMENT_SIZE_BYTES - 101)],
        checksum: 0,
    }]);
    {
        let group = MetaGroup {
            primary: Uuid(1),
            backup: Some(Uuid(2)),
            epoch: 0,
        };
        let backup = Some(held[1].log_of());
        let mut store =
            MetaStore::open(group, held[0].log_of(), backup, WAL_BASE_OFFSET, database()).unwrap();
        store.apply(MetaOp::CreateInode(rec)).unwrap();
    }
    Pool::open(held.clone(), logs(&held), database()).unwrap()
}

/// A disk that has no room for a record is passed over, and only where too few
/// are left is there no place for it.
#[test]
fn disks_without_room_are_passed_over() {
    let mut pool = nearly_full();
    for i in 0..10 {
        let inode = make(&mut pool, &format!("f{i}"), any_n(1));
        pool.append(inode, vec![7; 73]).unwrap();
        match pool.get_inode(inode).unwrap().unwrap().data {
            DataLocator::ChunkLog(chunks) => assert_eq!(chunks[0].replicas[0].0, Uuid(2)),
            _ => panic!("expected chunks"),
        }
    }
    let both = make(&mut pool, "both", any_n(2));
    assert!(matches!(
        pool.append(both, vec![7; 73]),
        Err(PoolError::Unplaceable)
    ));
    pool.append(both, vec![7; 72]).unwrap();
    assert_eq!(pool.read(both, 0, 100).unwrap(), vec![7; 72]);
}

/// So is one that has no room for a whole file.
#[test]
fn rewrites_pass_over_disks_without_room() {
    let mut pool = nearly_full();
    for i in 0..10 {
        let inode = make(&mut pool, &format!("f{i}"), any_n(1));
        pool.append(inode, vec![7; 101]).unwrap();
        pool.begin_convert(inode).unwrap();
        pool.complete_convert(inode).unwrap();
        pool.write(inode, 101, b"more").unwrap();
        match pool.get_inode(inode).unwrap().unwrap().data {
            DataLocator::Extents(extents) => assert_eq!(extents[0].replicas[0].0, Uuid(2)),
            _ => panic!("expected extents"),
        }
        assert_eq!(pool.read(inode, 100, 9).unwrap(), b"\x07more");
    }
    // a record of 58 bytes and an extent of 30 leave 12
    let both = make(&mut pool, "both", any_n(2));
    pool.append(both, vec![7; 30]).unwrap();
    pool.begin_convert(both).unwrap();
    pool.complete_convert(both).unwrap();
    assert!(matches!(
        pool.write(both, 0, b"x"),
        Err(PoolError::Unplaceable)
    ));
    assert_eq!(pool.read(both, 0, 100).unwrap(), vec![7; 30]);
}

#[test]
fn a_conversion_waits_for_room() {
    let mut pool = nearly_full();
    let both = make(&mut pool, "both", any_n(2));
    pool.append(both, vec![7; 60]).unwrap();
    pool.begin_convert(both).unwrap();
    assert!(matches!(
        pool.complete_convert(both),
        Err(PoolError::Unplaceable)
    ));
    assert_eq!(
        pool.get_inode(both).unwrap().unwrap().mode,
        InodeMode::Converting
    );
    pool.set_redundancy(both, any_n(1)).unwrap();
    pool.complete_convert(both).unwrap();
    assert_eq!(pool.read(both, 0, 100).unwrap(), vec![7; 60]);
}

#[test]
fn nothing_is_written_past_a_data_region() {
    let mut pool = format_pool(&disks(1));
    let inode = make(&mut pool, "f", any_n(1));
    pool.begin_convert(inode).unwrap();
    pool.complete_convert(inode).unwrap();
    assert!(matches!(
        pool.write(inode, segment::SEGMENT_SIZE_BYTES, b"x"),
        Err(PoolError::Unplaceable)
    ));
    assert_eq!(pool.get_inode(inode).unwrap().unwrap().size, 0);
    pool.write(inode, 0, b"x").unwrap();
    assert_eq!(pool.read(inode, 0, 9).unwrap(), b"x");
}

#[test]
fn a_piece_has_as_many_bytes_as_its_length_can_say() {
    assert_eq!(tartine::pool::piece_len(0).unwrap(), 0);
    assert_eq!(tartine::pool::piece_len(u32::MAX as usize).unwrap(), u32::MAX);
    match tartine::pool::piece_len(u32::MAX as usize + 1) {
        Err(PoolError::Meta(MetaStoreError::InvalidOp(m))) => {
            assert_eq!(m, "a file is larger than can be counted")
        }
        _ => panic!("expected InvalidOp"),
    }
}

/// A file that asks for no replica cannot be read, and takes nothing from the
/// others.
#[test]
fn a_file_without_replicas_disturbs_no_other() {
    let held = disks(2);
    let mut pool = format_pool(&held);
    let kept = make(&mut pool, "kept", any_n(2));
    pool.append(kept, b"first ".to_vec()).unwrap();
    let none = make(&mut pool, "none", any_n(0));
    pool.append(none, b"nowhere".to_vec()).unwrap();
    assert!(matches!(
        pool.read(none, 0, 9),
        Err(PoolError::Unplaceable)
    ));
    pool.append(kept, b"second".to_vec()).unwrap();
    assert_eq!(pool.read(kept, 0, 99).unwrap(), b"first second");
    pool.begin_convert(kept).unwrap();
    pool.complete_convert(kept).unwrap();
    pool.write(kept, 0, b"FIRST").unwrap();
    assert_eq!(pool.read(kept, 0, 99).unwrap(), b"FIRST second");
    drop(pool);
    let mut pool = Pool::open(held.clone(), logs(&held), database()).unwrap();
    let more = make(&mut pool, "more", any_n(2));
    pool.append(more, b"third".to_vec()).unwrap();
    assert_eq!(pool.read(kept, 0, 99).unwrap(), b"FIRST second");
    assert_eq!(pool.read(more, 0, 99).unwrap(), b"third");
}

#[test]
fn a_disk_that_cannot_be_read_is_reported() {
    let held = disks(2);
    let inode;
    {
        let mut pool = format_pool(&held);
        inode = make(&mut pool, "f", any_n(1));
        pool.append(inode, b"x".to_vec()).unwrap();
        for d in &held {
            d.set_fail(true);
        }
        match pool.read(inode, 0, 1) {
            Err(PoolError::Io(e)) => assert_eq!(e.message, "simulated disk failure"),
            other => panic!("expected an I/O error, got {other:?}"),
        }
    }
    match Pool::open(held.clone(), logs(&held), database()) {
        Err(PoolError::Io(e)) => assert_eq!(e.message, "simulated disk failure"),
        _ => panic!("expected an I/O error"),
    }
    match Pool::format(held.clone(), logs(&held), database(), 0) {
        Err(PoolError::Meta(e)) => assert_eq!(e.message(), "I/O error: simulated disk failure"),
        _ => panic!("expected an error of the metadata"),
    }
}

#[test]
fn what_a_record_allows() {
    let mut pool = format_pool(&disks(1));
    let inode = make(&mut pool, "f", any_n(1));
    pool.append(inode, b"x".to_vec()).unwrap();
    let file = pool.get_inode(inode).unwrap().unwrap();
    let root = pool.get_inode(ROOT_INODE).unwrap().unwrap();
    assert!(matches!(tartine::pool::next_chunk(&file), Ok(1)));
    assert!(matches!(
        tartine::pool::next_chunk(&root),
        Err(PoolError::WrongMode)
    ));
    assert!(tartine::pool::require_mode(&root, InodeMode::Writable).is_ok());
    assert!(matches!(
        tartine::pool::require_mode(&file, InodeMode::Writable),
        Err(PoolError::WrongMode)
    ));
    assert!(matches!(
        tartine::pool::found_inode(Ok(None)),
        Err(PoolError::NotFound)
    ));
    assert_eq!(pool.read_full_content(&file).unwrap(), b"x");
}

/// The operations on files follow what the look-up of the record came to.
#[test]
fn a_look_up_that_fails_stops_everything() {
    let gone = || Err(MetaStoreError::Redb("gone".to_string()));
    let mut pool = format_pool(&disks(1));
    let inode = make(&mut pool, "f", any_n(1));
    pool.append(inode, b"kept".to_vec()).unwrap();
    for r in [
        pool.append_found(gone(), inode, b"x".to_vec()),
        pool.complete_convert_found(gone(), inode),
        pool.write_found(gone(), inode, 0, b"x"),
        pool.read_found(gone(), inode, 0, 1).map(|_| ()),
    ] {
        assert_eq!(
            r.unwrap_err().message(),
            "metadata error: local store error: gone"
        );
    }
    for r in [
        pool.append_found(Ok(None), 99, b"x".to_vec()),
        pool.complete_convert_found(Ok(None), 99),
        pool.write_found(Ok(None), 99, 0, b"x"),
        pool.read_found(Ok(None), 99, 0, 1).map(|_| ()),
    ] {
        assert!(matches!(r, Err(PoolError::NotFound)));
    }
    assert_eq!(pool.read(inode, 0, 100).unwrap(), b"kept");
    let rec = pool.get_inode(inode).unwrap();
    pool.append_found(Ok(rec), inode, b" too".to_vec()).unwrap();
    let rec = pool.get_inode(inode).unwrap();
    assert_eq!(
        pool.read_found(Ok(rec), inode, 0, 100).unwrap(),
        b"kept too"
    );
}
