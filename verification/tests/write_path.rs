use tartine::proto::{DataLocator, InodeMode, InodeRecord, RedundancyScheme, ReplicaSlot};
use tartine::mode::{
    tartine_begin_convert, tartine_classify_write, tartine_truncate_allowed,
    ERR_ALREADY_CONVERTING, ERR_ALREADY_WRITABLE, ERR_CONVERSION_IN_PROGRESS, ERR_NOT_APPEND_ORDER,
    WRITE_KIND_APPEND, WRITE_KIND_RANDOM,
};
use tartine::store::mode_to_u32;
use tartine::write_path::{
    begin_convert, classify_write, complete_convert, truncate_allowed, ConvertError, WriteError,
    WriteKind,
};

fn append_only_inode(size: u64) -> InodeRecord {
    InodeRecord {
        inode: 1,
        mode: InodeMode::AppendOnly,
        size,
        redundancy: RedundancyScheme::Replicated(vec![ReplicaSlot::AnyOfClass(None); 2]),
        data: DataLocator::ChunkLog(vec![]),
        uid: 0,
        gid: 0,
        unix_mode: 0o644,
        mtime_unix: 0,
    }
}

#[test]
fn write_path_append_only_accepts_write_at_eof() {
    let inode = append_only_inode(100);
    assert!(matches!(
        classify_write(&inode, 100, 10),
        Ok(WriteKind::Append)
    ));
}

#[test]
fn write_path_append_only_rejects_write_before_eof() {
    let inode = append_only_inode(100);
    assert_eq!(
        classify_write(&inode, 50, 10),
        Err(WriteError::NotAppendOnlyOrder)
    );
}

#[test]
fn write_path_append_only_rejects_truncate() {
    let inode = append_only_inode(100);
    assert_eq!(truncate_allowed(&inode), Err(WriteError::RandomWriteDenied));
}

#[test]
fn write_path_converting_still_accepts_tail_append_but_not_random_write() {
    let mut inode = append_only_inode(100);
    begin_convert(&mut inode).unwrap();
    assert!(matches!(
        classify_write(&inode, 100, 10),
        Ok(WriteKind::Append)
    ));
    assert_eq!(
        classify_write(&inode, 10, 10),
        Err(WriteError::ConversionInProgress)
    );
}

#[test]
fn write_path_convert_is_one_way() {
    let mut inode = append_only_inode(100);
    begin_convert(&mut inode).unwrap();
    complete_convert(&mut inode, vec![]);
    assert_eq!(inode.mode, InodeMode::Writable);
    assert_eq!(
        begin_convert(&mut inode),
        Err(ConvertError::AlreadyWritable)
    );

    // and once writable, arbitrary offsets + truncate are fine
    assert!(matches!(
        classify_write(&inode, 0, 10),
        Ok(WriteKind::RandomWrite)
    ));
    assert!(truncate_allowed(&inode).is_ok());
}

#[test]
fn a_conversion_is_begun_once() {
    let mut inode = append_only_inode(100);
    begin_convert(&mut inode).unwrap();
    assert_eq!(
        begin_convert(&mut inode),
        Err(ConvertError::AlreadyConverting)
    );
    assert_eq!(inode.mode, InodeMode::Converting);
    assert_eq!(truncate_allowed(&inode), Err(WriteError::RandomWriteDenied));
    complete_convert(&mut inode, vec![]);
    assert_eq!(inode.data, DataLocator::Extents(vec![]));
    assert_eq!(inode.size, 100);
}

#[test]
fn records_and_plain_numbers_agree() {
    for mode in [
        InodeMode::AppendOnly,
        InodeMode::Converting,
        InodeMode::Writable,
    ] {
        let mut inode = append_only_inode(100);
        inode.mode = mode;
        let number = mode_to_u32(mode);
        for offset in [0, 99, 100, 101] {
            let kind = match classify_write(&inode, offset, 1) {
                Ok(WriteKind::Append) => WRITE_KIND_APPEND,
                Ok(WriteKind::RandomWrite) => WRITE_KIND_RANDOM,
                Err(WriteError::NotAppendOnlyOrder) => ERR_NOT_APPEND_ORDER,
                Err(WriteError::ConversionInProgress) => ERR_CONVERSION_IN_PROGRESS,
                Err(WriteError::RandomWriteDenied) => panic!("not a write"),
            };
            assert_eq!(kind, tartine_classify_write(number, 100, offset));
        }
        assert_eq!(
            truncate_allowed(&inode).is_ok(),
            tartine_truncate_allowed(number) == 0
        );
        let begun = match begin_convert(&mut inode) {
            Ok(()) => mode_to_u32(inode.mode) as i32,
            Err(ConvertError::AlreadyWritable) => ERR_ALREADY_WRITABLE,
            Err(ConvertError::AlreadyConverting) => ERR_ALREADY_CONVERTING,
        };
        assert_eq!(begun, tartine_begin_convert(number));
    }
}
