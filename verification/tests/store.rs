use std::sync::atomic::{AtomicBool, Ordering};
use std::sync::{Arc, Mutex};
use tartine::disk::{Disk, DiskError, DiskErrorKind};
use tartine::proto::{
    ChunkPointer, DataLocator, Extent, InodeMode, InodeRecord, MetaGroup, MetaOp,
    RedundancyScheme, ReplicaSlot, Uuid,
};
use tartine::replicator::{CommitError, MetaReplicator};
use tartine::store::{MetaStore, MetaStoreError};

/// A disk in memory that can be made to fail. Its clones are handles of the
/// same disk.
#[derive(Clone)]
struct FlakyDisk {
    held: Arc<Mutex<Vec<u8>>>,
    fail: Arc<AtomicBool>,
}

impl FlakyDisk {
    fn new(fail: bool) -> Self {
        FlakyDisk {
            held: Arc::new(Mutex::new(vec![0; 1 << 16])),
            fail: Arc::new(AtomicBool::new(fail)),
        }
    }

    fn check(&self) -> Result<(), DiskError> {
        if self.fail.load(Ordering::SeqCst) {
            return Err(DiskError {
                kind: DiskErrorKind::Other,
                message: "simulated disk failure".to_string(),
                detail: "Custom { kind: Other, error: \"simulated disk failure\" }".to_string(),
            });
        }
        Ok(())
    }
}

impl Disk for FlakyDisk {
    fn read_at(&self, offset: u64, buf: &mut [u8]) -> Result<(), DiskError> {
        self.check()?;
        let held = self.held.lock().unwrap();
        let at = offset as usize;
        if offset + buf.len() as u64 > held.len() as u64 {
            return Err(DiskError::past_end());
        }
        buf.copy_from_slice(&held[at..at + buf.len()]);
        Ok(())
    }

    fn write_at(&mut self, offset: u64, buf: &[u8]) -> Result<(), DiskError> {
        self.check()?;
        let mut held = self.held.lock().unwrap();
        let at = offset as usize;
        if held.len() < at + buf.len() {
            held.resize(at + buf.len(), 0);
        }
        held[at..at + buf.len()].copy_from_slice(buf);
        Ok(())
    }

    fn sync(&mut self) -> Result<(), DiskError> {
        self.check()
    }

    fn capacity_bytes(&self) -> u64 {
        self.held.lock().unwrap().len() as u64
    }
}

fn database() -> redb::Database {
    redb::Database::builder()
        .create_with_backend(redb::backends::InMemoryBackend::new())
        .unwrap()
}

fn pair() -> MetaGroup {
    MetaGroup {
        primary: Uuid(1),
        backup: Some(Uuid(2)),
        epoch: 0,
    }
}

fn root_record() -> InodeRecord {
    InodeRecord {
        inode: 1,
        mode: InodeMode::Writable,
        size: 0,
        redundancy: RedundancyScheme::Replicated(vec![ReplicaSlot::AnyOfClass(None); 2]),
        data: DataLocator::Extents(vec![]),
        uid: 0,
        gid: 0,
        unix_mode: 0o755,
        mtime_unix: 0,
    }
}

fn open(primary: &FlakyDisk, backup: &FlakyDisk) -> MetaStore<FlakyDisk> {
    MetaStore::open(
        pair(),
        primary.clone(),
        Some(backup.clone()),
        0,
        database(),
    )
    .unwrap()
}

fn fresh() -> MetaStore<FlakyDisk> {
    open(&FlakyDisk::new(false), &FlakyDisk::new(false))
}

fn chunk(len: u32) -> ChunkPointer {
    ChunkPointer {
        chunk_seq: 0,
        replicas: vec![(Uuid(9), 0)],
        len,
        checksum: 1,
    }
}

fn extent(file_offset: u64, len: u32) -> Extent {
    Extent {
        file_offset,
        len,
        replicas: vec![(Uuid(9), 0)],
        checksum: 1,
    }
}

#[test]
fn create_link_and_read_back() {
    let mut store = fresh();
    store.apply(MetaOp::CreateInode(root_record())).unwrap();

    let child_id = store.alloc_inode();
    let mut child = root_record();
    child.inode = child_id;
    child.mode = InodeMode::AppendOnly;
    child.data = DataLocator::ChunkLog(vec![]);
    store.apply(MetaOp::CreateInode(child)).unwrap();
    store
        .apply(MetaOp::Link {
            parent: 1,
            name: "f".into(),
            child: child_id,
        })
        .unwrap();

    assert_eq!(store.lookup(1, "f").unwrap(), Some(child_id));
    assert_eq!(store.readdir(1).unwrap(), vec![("f".to_string(), child_id)]);
    assert_eq!(
        store.get_inode(child_id).unwrap().unwrap().mode,
        InodeMode::AppendOnly
    );
}

#[test]
fn survives_reopen_via_wal_replay() {
    let primary = FlakyDisk::new(false);
    let backup = FlakyDisk::new(false);
    {
        let mut store = open(&primary, &backup);
        store.apply(MetaOp::CreateInode(root_record())).unwrap();
        let child_id = store.alloc_inode();
        let mut child = root_record();
        child.inode = child_id;
        store.apply(MetaOp::CreateInode(child)).unwrap();
        store
            .apply(MetaOp::Link {
                parent: 1,
                name: "persisted".into(),
                child: child_id,
            })
            .unwrap();
    }

    // The crash-recovery path: nothing but the log on the disks is trusted.
    let store2 = open(&primary, &backup);
    assert!(store2.lookup(1, "persisted").unwrap().is_some());
}

#[test]
fn append_chunk_updates_size_and_chunk_log() {
    let mut store = fresh();

    let mut file = root_record();
    file.inode = 2;
    file.mode = InodeMode::AppendOnly;
    file.size = 0;
    file.data = DataLocator::ChunkLog(vec![]);
    store.apply(MetaOp::CreateInode(file)).unwrap();

    store
        .apply(MetaOp::AppendChunk {
            inode: 2,
            chunk: chunk(5),
        })
        .unwrap();

    let rec = store.get_inode(2).unwrap().unwrap();
    assert_eq!(rec.size, 5);
    match rec.data {
        DataLocator::ChunkLog(chunks) => assert_eq!(chunks.len(), 1),
        _ => panic!("expected ChunkLog"),
    }
}

#[test]
fn convert_transitions_mode_and_data_locator() {
    let mut store = fresh();

    let mut file = root_record();
    file.inode = 2;
    file.mode = InodeMode::AppendOnly;
    file.data = DataLocator::ChunkLog(vec![]);
    store.apply(MetaOp::CreateInode(file)).unwrap();

    store.apply(MetaOp::BeginConvert { inode: 2 }).unwrap();
    assert_eq!(
        store.get_inode(2).unwrap().unwrap().mode,
        InodeMode::Converting
    );

    store
        .apply(MetaOp::CompleteConvert {
            inode: 2,
            extents: vec![],
        })
        .unwrap();
    let rec = store.get_inode(2).unwrap().unwrap();
    assert_eq!(rec.mode, InodeMode::Writable);
    assert!(matches!(rec.data, DataLocator::Extents(_)));
}

#[test]
fn backup_failure_fences_but_keeps_serving_degraded() {
    let primary = FlakyDisk::new(false);
    let backup = FlakyDisk::new(true);
    let mut store = open(&primary, &backup);
    assert!(store.group().backup.is_some());
    assert_eq!(store.group().epoch, 0);

    // The backup is failing, but the operation is durable on the primary and
    // is not rejected.
    store.apply(MetaOp::CreateInode(root_record())).unwrap();

    assert!(
        store.group().backup.is_none(),
        "backup should be fenced out after failing"
    );
    assert_eq!(store.group().epoch, 1, "fencing must bump the epoch");
    assert!(
        store.get_inode(1).unwrap().is_some(),
        "the op that triggered fencing still applied"
    );

    // With the primary alone things go on.
    let child_id = store.alloc_inode();
    let mut child = root_record();
    child.inode = child_id;
    store.apply(MetaOp::CreateInode(child)).unwrap();
    store
        .apply(MetaOp::Link {
            parent: 1,
            name: "still-works".into(),
            child: child_id,
        })
        .unwrap();
    assert_eq!(store.lookup(1, "still-works").unwrap(), Some(child_id));
}

#[test]
fn a_failing_primary_refuses_the_operation() {
    let primary = FlakyDisk::new(false);
    let backup = FlakyDisk::new(false);
    let mut store = open(&primary, &backup);
    store.apply(MetaOp::CreateInode(root_record())).unwrap();
    primary.fail.store(true, Ordering::SeqCst);
    let e = store
        .apply(MetaOp::Link {
            parent: 1,
            name: "lost".into(),
            child: 7,
        })
        .unwrap_err();
    assert!(matches!(
        e,
        MetaStoreError::Commit(CommitError::PrimaryUnavailable(_))
    ));
    assert_eq!(store.lookup(1, "lost").unwrap(), None);
    assert!(store.group().backup.is_some());
}

#[test]
fn operations_that_do_not_apply_are_refused() {
    let mut store = fresh();
    let mut log = root_record();
    log.inode = 2;
    log.mode = InodeMode::AppendOnly;
    log.data = DataLocator::ChunkLog(vec![]);
    store.apply(MetaOp::CreateInode(root_record())).unwrap();
    store.apply(MetaOp::CreateInode(log)).unwrap();

    let refused = [
        (
            MetaOp::BeginConvert { inode: 77 },
            "operation referenced an inode that doesn't exist",
        ),
        (
            MetaOp::AppendChunk {
                inode: 1,
                chunk: chunk(5),
            },
            "AppendChunk against a Writable (extent-mapped) file",
        ),
        (
            MetaOp::BeginConvert { inode: 1 },
            "BeginConvert on a file that's already Converting or Writable",
        ),
        (
            MetaOp::CompleteConvert {
                inode: 2,
                extents: vec![],
            },
            "CompleteConvert called out of order",
        ),
        (
            MetaOp::UpdateExtents {
                inode: 2,
                extents: vec![],
            },
            "UpdateExtents against a file that isn't Writable yet",
        ),
        (
            MetaOp::UpdateExtents {
                inode: 1,
                extents: vec![extent(u64::MAX, 1)],
            },
            "a file is larger than can be counted",
        ),
    ];
    for (op, why) in refused {
        match store.apply(op).unwrap_err() {
            MetaStoreError::InvalidOp(m) => assert_eq!(m, why),
            other => panic!("expected InvalidOp, got {other:?}"),
        }
    }
    assert_eq!(store.get_inode(1).unwrap().unwrap(), root_record());
}

#[test]
fn inode_numbers_run_out() {
    let mut store = fresh();
    let mut last = root_record();
    last.inode = u64::MAX - 1;
    store.apply(MetaOp::CreateInode(last)).unwrap();
    assert!(!store.has_free_inode());
    let mut beyond = root_record();
    beyond.inode = u64::MAX;
    match store.apply(MetaOp::CreateInode(beyond)).unwrap_err() {
        MetaStoreError::InvalidOp(m) => assert_eq!(m, "no inode number is left"),
        other => panic!("expected InvalidOp, got {other:?}"),
    }
}

#[test]
fn a_chunk_log_does_not_overflow_the_size() {
    let mut store = fresh();
    let mut log = root_record();
    log.mode = InodeMode::AppendOnly;
    log.data = DataLocator::ChunkLog(vec![]);
    log.size = u64::MAX - 4;
    store.apply(MetaOp::CreateInode(log)).unwrap();
    let e = store
        .apply(MetaOp::AppendChunk {
            inode: 1,
            chunk: chunk(5),
        })
        .unwrap_err();
    assert_eq!(
        e.message(),
        "invalid metadata operation: a file is larger than can be counted"
    );
}

#[test]
fn sizes_follow_the_extents() {
    let mut store = fresh();
    store.apply(MetaOp::CreateInode(root_record())).unwrap();
    store
        .apply(MetaOp::UpdateExtents {
            inode: 1,
            extents: vec![extent(10, 20), extent(0, 4)],
        })
        .unwrap();
    let rec = store.get_inode(1).unwrap().unwrap();
    assert_eq!(rec.size, 30);
    assert_eq!(
        rec.data,
        DataLocator::Extents(vec![extent(10, 20), extent(0, 4)])
    );
}

#[test]
fn a_scheme_is_changed_and_kept() {
    let primary = FlakyDisk::new(false);
    let backup = FlakyDisk::new(false);
    let pinned = RedundancyScheme::Replicated(vec![ReplicaSlot::Pinned(Uuid(4))]);
    {
        let mut store = open(&primary, &backup);
        store.apply(MetaOp::CreateInode(root_record())).unwrap();
        store
            .apply(MetaOp::SetRedundancyScheme {
                inode: 1,
                scheme: pinned.clone(),
            })
            .unwrap();
    }
    let store = open(&primary, &backup);
    assert_eq!(store.get_inode(1).unwrap().unwrap().redundancy, pinned);
    assert_eq!(store.get_inode(2).unwrap(), None);
}

#[test]
fn listings_are_sorted_and_of_one_directory() {
    let mut store = fresh();
    for (parent, name, child) in [
        (1u64, "b", 2u64),
        (1, "a", 3),
        (1, "B", 4),
        (2, "c", 5),
        (256, "d", 6),
        (1, "ab", 7),
        (1, "\u{e9}", 8),
    ] {
        store
            .apply(MetaOp::Link {
                parent,
                name: name.into(),
                child,
            })
            .unwrap();
    }
    let names: Vec<String> = store.readdir(1).unwrap().into_iter().map(|e| e.0).collect();
    assert_eq!(names, ["B", "a", "ab", "b", "\u{e9}"]);
    assert_eq!(store.readdir(2).unwrap(), vec![("c".to_string(), 5)]);
    assert_eq!(store.readdir(3).unwrap(), vec![]);
    store
        .apply(MetaOp::Unlink {
            parent: 1,
            name: "ab".into(),
        })
        .unwrap();
    assert_eq!(store.lookup(1, "ab").unwrap(), None);
    assert_eq!(store.readdir(1).unwrap().len(), 4);
    // a later link of the same name takes its place
    store
        .apply(MetaOp::Link {
            parent: 1,
            name: "a".into(),
            child: 99,
        })
        .unwrap();
    assert_eq!(store.lookup(1, "a").unwrap(), Some(99));
}

#[test]
fn the_log_starts_where_it_is_told() {
    let primary = FlakyDisk::new(false);
    let mut store = MetaStore::open(
        MetaGroup {
            primary: Uuid(1),
            backup: None,
            epoch: 0,
        },
        primary.clone(),
        None,
        4096,
        database(),
    )
    .unwrap();
    store.apply(MetaOp::CreateInode(root_record())).unwrap();
    let held = primary.held.lock().unwrap();
    assert_eq!(&held[4096..4100], b"1LAW");
    assert!(held[..4096].iter().all(|b| *b == 0));
}

#[test]
fn a_log_that_does_not_replay_is_not_opened() {
    let primary = FlakyDisk::new(false);
    {
        let frame = tartine::wal::build_frame(b"\x63");
        primary.held.lock().unwrap()[..frame.len()].copy_from_slice(&frame);
    }
    match MetaStore::open(
        pair(),
        primary.clone(),
        Some(FlakyDisk::new(false)),
        0,
        database(),
    ) {
        Err(MetaStoreError::InvalidOp(m)) => {
            assert_eq!(m, "the log holds an entry that is no operation")
        }
        _ => panic!("expected InvalidOp"),
    }
    primary.fail.store(true, Ordering::SeqCst);
    match MetaStore::open(
        pair(),
        primary,
        Some(FlakyDisk::new(false)),
        0,
        database(),
    ) {
        Err(e) => assert_eq!(e.message(), "I/O error: simulated disk failure"),
        Ok(_) => panic!("expected an error"),
    }
}

#[test]
fn both_disks_hold_what_is_committed() {
    let primary = FlakyDisk::new(false);
    let backup = FlakyDisk::new(false);
    let mut m = MetaReplicator::new(pair(), primary.clone(), Some(backup.clone()));
    m.commit(b"entry", 10).unwrap();
    assert_eq!(&primary.held.lock().unwrap()[10..15], b"entry");
    assert_eq!(&backup.held.lock().unwrap()[10..15], b"entry");
    assert_eq!(m.group(), pair());

    backup.fail.store(true, Ordering::SeqCst);
    match m.commit(b"again", 20) {
        Err(CommitError::BackupUnavailable(e)) => assert_eq!(e.message, "simulated disk failure"),
        _ => panic!("expected the backup to be reported"),
    }
    m.fence_backup();
    assert_eq!(m.group().backup, None);
    assert_eq!(m.group().epoch, 1);
    m.commit(b"again", 20).unwrap();
    assert_eq!(&primary.held.lock().unwrap()[20..25], b"again");

    let spare = FlakyDisk::new(false);
    m.promote_new_backup(Uuid(3), spare.clone());
    assert_eq!(m.group().backup, Some(Uuid(3)));
    assert_eq!(m.group().epoch, 2);
    m.commit(b"third", 30).unwrap();
    assert_eq!(&spare.held.lock().unwrap()[30..35], b"third");

    primary.fail.store(true, Ordering::SeqCst);
    assert!(matches!(
        m.commit(b"never", 40),
        Err(CommitError::PrimaryUnavailable(_))
    ));
}

/// A database whose storage can be made to fail.
#[derive(Debug)]
struct FailingBackend {
    inner: redb::backends::InMemoryBackend,
    fail: Arc<AtomicBool>,
}

impl FailingBackend {
    fn check(&self) -> Result<(), std::io::Error> {
        if self.fail.load(Ordering::SeqCst) {
            return Err(std::io::Error::other("simulated storage failure"));
        }
        Ok(())
    }
}

impl redb::StorageBackend for FailingBackend {
    fn len(&self) -> Result<u64, std::io::Error> {
        self.check()?;
        self.inner.len()
    }

    fn read(&self, offset: u64, out: &mut [u8]) -> Result<(), std::io::Error> {
        self.check()?;
        self.inner.read(offset, out)
    }

    fn set_len(&self, len: u64) -> Result<(), std::io::Error> {
        self.check()?;
        self.inner.set_len(len)
    }

    fn sync_data(&self) -> Result<(), std::io::Error> {
        self.check()?;
        self.inner.sync_data()
    }

    fn write(&self, offset: u64, data: &[u8]) -> Result<(), std::io::Error> {
        self.check()?;
        self.inner.write(offset, data)
    }
}

#[test]
fn failing_tables_are_reported_and_the_log_has_the_operation() {
    let primary = FlakyDisk::new(false);
    let backup = FlakyDisk::new(false);
    let fail = Arc::new(AtomicBool::new(false));
    let db = redb::Database::builder()
        .create_with_backend(FailingBackend {
            inner: redb::backends::InMemoryBackend::new(),
            fail: fail.clone(),
        })
        .unwrap();
    let mut store =
        MetaStore::open(pair(), primary.clone(), Some(backup.clone()), 0, db).unwrap();
    fail.store(true, Ordering::SeqCst);
    let e = store.apply(MetaOp::CreateInode(root_record())).unwrap_err();
    assert!(matches!(e, MetaStoreError::Redb(_)));
    assert!(e.message().starts_with("local store error: "));
    drop(store);

    // the log has it, so it is there when the store is opened anew
    let store = open(&primary, &backup);
    assert_eq!(store.get_inode(1).unwrap(), Some(root_record()));
}

#[test]
fn stale_tables_are_emptied() {
    let db = database();
    let inodes = redb::TableDefinition::<u64, &[u8]>::new("inodes");
    let entries = redb::TableDefinition::<&[u8], u64>::new("dir_entries");
    let txn = db.begin_write().unwrap();
    {
        let mut table = txn.open_table(inodes).unwrap();
        table.insert(1u64, b"stale".as_slice()).unwrap();
        let mut table = txn.open_table(entries).unwrap();
        table
            .insert(b"\x01\0\0\0\0\0\0\0stale".as_slice(), 5u64)
            .unwrap();
    }
    txn.commit().unwrap();
    let store = MetaStore::open(
        pair(),
        FlakyDisk::new(false),
        Some(FlakyDisk::new(false)),
        0,
        db,
    )
    .unwrap();
    assert_eq!(store.get_inode(1).unwrap(), None);
    assert_eq!(store.lookup(1, "stale").unwrap(), None);
    assert_eq!(store.readdir(1).unwrap(), vec![]);
}

#[test]
fn entries_survive_what_is_torn_behind_them() {
    let primary = FlakyDisk::new(false);
    let backup = FlakyDisk::new(false);
    {
        let mut store = open(&primary, &backup);
        store.apply(MetaOp::CreateInode(root_record())).unwrap();
    }
    let end = tartine::wal::scan(&primary, 0).unwrap().resume_at as usize;
    let frame = tartine::wal::build_frame(b"half of an entry");
    primary.held.lock().unwrap()[end..end + 20].copy_from_slice(&frame[..20]);
    let mut store = open(&primary, &backup);
    assert_eq!(store.get_inode(1).unwrap(), Some(root_record()));
    // the next entry takes the place of the torn one
    store
        .apply(MetaOp::Link {
            parent: 1,
            name: "f".into(),
            child: 2,
        })
        .unwrap();
    drop(store);
    assert_eq!(open(&primary, &backup).lookup(1, "f").unwrap(), Some(2));
}

/// What is acknowledged after a failed write is found, whatever that write left
/// behind it.
#[test]
fn what_follows_a_failed_write_is_found() {
    let primary = FlakyDisk::new(false);
    let backup = FlakyDisk::new(false);
    {
        let mut store = open(&primary, &backup);
        store.apply(MetaOp::CreateInode(root_record())).unwrap();
        let end = tartine::wal::scan(&primary, 0).unwrap().resume_at as usize;
        primary.fail.store(true, Ordering::SeqCst);
        let lost = MetaOp::Link {
            parent: 1,
            name: "a name that was lost".into(),
            child: 7,
        };
        assert!(matches!(
            store.apply(lost),
            Err(MetaStoreError::Commit(_))
        ));
        primary.fail.store(false, Ordering::SeqCst);
        let frame = tartine::wal::build_frame(&[0x5a; 60]);
        primary.held.lock().unwrap()[end..end + 50].copy_from_slice(&frame[..50]);
        store
            .apply(MetaOp::Link {
                parent: 1,
                name: "f".into(),
                child: 2,
            })
            .unwrap();
    }
    let store = open(&primary, &backup);
    assert_eq!(store.get_inode(1).unwrap(), Some(root_record()));
    assert_eq!(store.readdir(1).unwrap(), vec![("f".to_string(), 2)]);
}

/// An operation that the log has no room for is refused, and one that just fits
/// is found again.
#[test]
fn a_full_log_takes_nothing_more() {
    let disk = FlakyDisk::new(false);
    let alone = MetaGroup {
        primary: Uuid(1),
        backup: None,
        epoch: 0,
    };
    let open_alone =
        || MetaStore::open(alone, disk.clone(), None, 0, database()).unwrap();
    let unlink = |n: usize| MetaOp::Unlink {
        parent: 1,
        name: "x".repeat(n),
    };
    let full = tartine::wal::WAL_CAPACITY_BYTES;
    let mut store = open_alone();
    // the entry of an unlink is 25 bytes longer than the name
    store.apply(unlink(full as usize - 25 - 30)).unwrap();
    assert_eq!(tartine::wal::scan(&disk, 0).unwrap().resume_at, full - 30);
    match store.apply(unlink(6)) {
        Err(MetaStoreError::InvalidOp(m)) => {
            assert_eq!(m, "the log has no room for the operation")
        }
        _ => panic!("expected InvalidOp"),
    }
    store.apply(unlink(5)).unwrap();
    assert!(matches!(
        store.apply(MetaOp::CreateInode(root_record())),
        Err(MetaStoreError::InvalidOp(
            "the log has no room for the operation"
        ))
    ));
    assert_eq!(store.get_inode(1).unwrap(), None);
    drop(store);
    assert!(disk.held.lock().unwrap().len() as u64 <= full);
    let scan = tartine::wal::scan(&disk, 0).unwrap();
    assert_eq!(scan.entries.len(), 2);
    assert_eq!(scan.resume_at, full);
}

/// An operation that does not apply is not logged, and a store that refused one
/// opens again as it was.
#[test]
fn a_refused_operation_is_not_logged() {
    let primary = FlakyDisk::new(false);
    let backup = FlakyDisk::new(false);
    {
        let mut store = open(&primary, &backup);
        store.apply(MetaOp::CreateInode(root_record())).unwrap();
        match store.apply(MetaOp::BeginConvert { inode: 1 }) {
            Err(MetaStoreError::InvalidOp(m)) => assert_eq!(
                m,
                "BeginConvert on a file that's already Converting or Writable"
            ),
            _ => panic!("expected InvalidOp"),
        }
        assert!(matches!(
            store.apply(MetaOp::BeginConvert { inode: 9 }),
            Err(MetaStoreError::InvalidOp(_))
        ));
        let mut last = root_record();
        last.inode = u64::MAX;
        assert!(matches!(
            store.apply(MetaOp::CreateInode(last)),
            Err(MetaStoreError::InvalidOp("no inode number is left"))
        ));
        store
            .apply(MetaOp::Link {
                parent: 1,
                name: "f".into(),
                child: 1,
            })
            .unwrap();
    }
    assert_eq!(
        tartine::wal::scan(&primary, 0).unwrap().entries.len(),
        2
    );
    assert_eq!(*primary.held.lock().unwrap(), *backup.held.lock().unwrap());
    let store = open(&primary, &backup);
    assert_eq!(store.get_inode(1).unwrap(), Some(root_record()));
    assert_eq!(store.lookup(1, "f").unwrap(), Some(1));
    assert_eq!(store.inodes().unwrap(), vec![root_record()]);
}

/// A refused operation is refused though no disk works.
#[test]
fn a_refused_operation_touches_no_disk() {
    let primary = FlakyDisk::new(false);
    let mut store = open(&primary, &FlakyDisk::new(false));
    store.apply(MetaOp::CreateInode(root_record())).unwrap();
    primary.fail.store(true, Ordering::SeqCst);
    assert!(matches!(
        store.apply(MetaOp::BeginConvert { inode: 1 }),
        Err(MetaStoreError::InvalidOp(_))
    ));
    match store.apply(MetaOp::Unlink {
        parent: 1,
        name: "f".into(),
    }) {
        Err(MetaStoreError::Commit(CommitError::PrimaryUnavailable(e))) => {
            assert_eq!(e.message, "simulated disk failure")
        }
        _ => panic!("expected a failed commit"),
    }
}

#[test]
fn a_log_that_cannot_be_read_is_an_io_error() {
    match MetaStore::open(pair(), FlakyDisk::new(true), None, 0, database()) {
        Err(MetaStoreError::Io(m)) => assert_eq!(m, "simulated disk failure"),
        _ => panic!("expected an I/O error"),
    }
}

/// An entry that is no operation stops the replay.
#[test]
fn a_log_that_does_not_replay_is_refused() {
    let primary = FlakyDisk::new(false);
    let frame = tartine::wal::build_frame(&[255, 255, 255]);
    primary.held.lock().unwrap()[..frame.len()].copy_from_slice(&frame);
    assert!(matches!(
        MetaStore::open(pair(), primary, None, 0, database()),
        Err(MetaStoreError::InvalidOp(
            "the log holds an entry that is no operation"
        ))
    ));
}

#[test]
fn rows_become_listings_and_records() {
    let key = |parent: u64, name: &str| {
        let mut k = parent.to_le_bytes().to_vec();
        k.extend_from_slice(name.as_bytes());
        k
    };
    let rows = vec![(key(7, "a"), 1), (key(7, "b"), 2), (key(8, "a"), 3)];
    assert_eq!(
        tartine::store::listing(7, &rows),
        vec![("a".to_string(), 1), ("b".to_string(), 2)]
    );
    assert_eq!(tartine::store::listing(8, &rows), vec![]);
    let mut e = tartine::codec::Encoder::new();
    tartine::codec::encode_inode_record(&mut e, &root_record());
    assert_eq!(
        tartine::store::records_in(&vec![(1, e.into_vec())]),
        vec![root_record()]
    );
}

#[test]
fn modes_have_numbers() {
    for m in [
        InodeMode::AppendOnly,
        InodeMode::Converting,
        InodeMode::Writable,
    ] {
        assert_eq!(
            tartine::store::u32_to_mode(tartine::store::mode_to_u32(m)),
            m
        );
    }
    assert_eq!(tartine::store::mode_to_u32(InodeMode::Writable), 2);
}

#[test]
fn the_backup_alone_restores_the_state() {
    let primary = FlakyDisk::new(false);
    let backup = FlakyDisk::new(false);
    {
        let mut store = open(&primary, &backup);
        store.apply(MetaOp::CreateInode(root_record())).unwrap();
        store
            .apply(MetaOp::Link {
                parent: 1,
                name: "f".into(),
                child: 2,
            })
            .unwrap();
    }
    let alone = MetaGroup {
        primary: Uuid(2),
        backup: None,
        epoch: 1,
    };
    let store = MetaStore::open(alone, backup, None, 0, database()).unwrap();
    assert_eq!(store.get_inode(1).unwrap(), Some(root_record()));
    assert_eq!(store.readdir(1).unwrap(), vec![("f".to_string(), 2)]);
}
