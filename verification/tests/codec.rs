use std::collections::HashMap;
use tartine::codec::{
    decode_extent, decode_inode_record, decode_meta_group, decode_op, decode_pool_map,
    encode_extent, encode_inode_record, encode_meta_group, encode_op, encode_pool_map,
    try_decode_inode_record, try_decode_op, Decoder, Encoder,
};
use tartine::proto::{
    ChunkPointer, DataLocator, DiskClass, DiskEntry, DiskRoles, DiskState, Extent, InodeMode,
    InodeRecord, MetaGroup, MetaOp, PoolMap, RedundancyScheme, ReplicaSlot, Uuid,
};

fn sample_inode_record() -> InodeRecord {
    InodeRecord {
        inode: 42,
        mode: InodeMode::AppendOnly,
        size: 100,
        redundancy: RedundancyScheme::Replicated(vec![
            ReplicaSlot::AnyOfClass(Some(DiskClass::Ssd)),
            ReplicaSlot::Pinned(Uuid(7)),
        ]),
        data: DataLocator::ChunkLog(vec![ChunkPointer {
            chunk_seq: 0,
            replicas: vec![(Uuid(1), 0), (Uuid(2), 0)],
            len: 100,
            checksum: 0xdead_beef,
        }]),
        uid: 1000,
        gid: 1000,
        unix_mode: 0o644,
        mtime_unix: 1_700_000_000,
    }
}

fn sample_extent() -> Extent {
    Extent {
        file_offset: 0,
        len: 5,
        replicas: vec![(Uuid(1), 0)],
        checksum: 9,
    }
}

fn sample_pool_map() -> PoolMap {
    let mut disks = HashMap::new();
    disks.insert(
        1,
        DiskEntry {
            roles: DiskRoles {
                data: true,
                metadata: false,
            },
            state: DiskState::Active,
            class: DiskClass::Nvme,
            weight_bits: 2.5f64.to_bits(),
            used_bytes: 10,
            capacity_bytes: 100,
        },
    );
    PoolMap { epoch: 3, disks }
}

#[test]
fn inode_record_round_trips() {
    let rec = sample_inode_record();
    let mut e = Encoder::new();
    encode_inode_record(&mut e, &rec);
    let bytes = e.into_vec();
    let mut d = Decoder::new(&bytes);
    let decoded = decode_inode_record(&mut d);
    assert_eq!(decoded.inode, rec.inode);
    assert_eq!(decoded.mode, rec.mode);
    assert_eq!(decoded.redundancy, rec.redundancy);
    assert_eq!(decoded, rec);
}

#[test]
fn every_meta_op_variant_round_trips() {
    let ops = vec![
        MetaOp::CreateInode(sample_inode_record()),
        MetaOp::Link {
            parent: 1,
            name: "foo".into(),
            child: 2,
        },
        MetaOp::Unlink {
            parent: 1,
            name: "foo".into(),
        },
        MetaOp::AppendChunk {
            inode: 2,
            chunk: ChunkPointer {
                chunk_seq: 0,
                replicas: vec![(Uuid(1), 0)],
                len: 5,
                checksum: 9,
            },
        },
        MetaOp::BeginConvert { inode: 2 },
        MetaOp::CompleteConvert {
            inode: 2,
            extents: vec![sample_extent()],
        },
        MetaOp::SetRedundancyScheme {
            inode: 2,
            scheme: RedundancyScheme::Replicated(vec![ReplicaSlot::AnyOfClass(None); 3]),
        },
        MetaOp::UpdateExtents {
            inode: 2,
            extents: vec![sample_extent()],
        },
        MetaOp::PoolMapChange(sample_pool_map()),
        MetaOp::MetaGroupChange(MetaGroup {
            primary: Uuid(1),
            backup: Some(Uuid(2)),
            epoch: 4,
        }),
    ];
    for op in ops {
        let bytes = encode_op(&op);
        let decoded = decode_op(&bytes);
        assert_eq!(format!("{op:?}"), format!("{decoded:?}"));
    }
}

#[test]
fn pool_map_round_trips() {
    let pm = sample_pool_map();
    let mut e = Encoder::new();
    encode_pool_map(&mut e, &pm);
    let bytes = e.into_vec();
    let mut d = Decoder::new(&bytes);
    let decoded = decode_pool_map(&mut d);
    assert_eq!(decoded.epoch, pm.epoch);
    assert_eq!(f64::from_bits(decoded.disks[&1].weight_bits), 2.5);
    assert_eq!(decoded.disks[&1].class, DiskClass::Nvme);
    assert_eq!(decoded.disks, pm.disks);
}

#[test]
fn primitives_round_trip_in_order() {
    let mut e = Encoder::default();
    e.u8(7);
    e.bool(true);
    e.bool(false);
    e.u32(0x0102_0304);
    e.u64(5);
    e.u128(6);
    e.float_bits(2.5f64.to_bits());
    e.bytes(b"raw");
    e.str("na\u{ef}ve");
    let bytes = e.into_vec();
    assert_eq!(&bytes[0..7], &[7, 1, 0, 4, 3, 2, 1]);
    let mut d = Decoder::new(&bytes);
    assert_eq!(d.u8(), 7);
    assert!(d.bool());
    assert!(!d.bool());
    assert_eq!(d.u32(), 0x0102_0304);
    assert_eq!(d.u64(), 5);
    assert_eq!(d.u128(), 6);
    assert_eq!(f64::from_bits(d.float_bits()), 2.5);
    assert_eq!(d.bytes(), b"raw");
    assert_eq!(d.str(), "na\u{ef}ve");
}

#[test]
fn the_bytes_of_an_operation() {
    let op = MetaOp::Unlink {
        parent: 1,
        name: "foo".into(),
    };
    assert_eq!(encode_op(&op), b"\x02\x01\0\0\0\0\0\0\0\x03\0\0\0foo");
}

#[test]
fn extents_and_groups_round_trip() {
    let mut e = Encoder::new();
    encode_extent(&mut e, &sample_extent());
    let group = MetaGroup {
        primary: Uuid(1),
        backup: None,
        epoch: 9,
    };
    encode_meta_group(&mut e, &group);
    let bytes = e.into_vec();
    let mut d = Decoder::new(&bytes);
    assert_eq!(decode_extent(&mut d), sample_extent());
    assert_eq!(decode_meta_group(&mut d), group);
}

#[test]
fn what_is_no_record_is_not_decoded() {
    let mut e = Encoder::new();
    encode_inode_record(&mut e, &sample_inode_record());
    let bytes = e.into_vec();
    assert_eq!(try_decode_inode_record(&bytes), Some(sample_inode_record()));
    assert_eq!(try_decode_inode_record(&bytes[..bytes.len() - 1]), None);
    assert!(try_decode_op(b"\x63").is_none());
    assert!(try_decode_op(b"").is_none());
    // a name that is no text
    assert!(try_decode_op(b"\x02\x01\0\0\0\0\0\0\0\x01\0\0\0\xff").is_none());
}

/// Little-endian fields one after the other, lists behind their lengths.
#[test]
fn the_bytes_of_an_inode_record() {
    let mut want: Vec<u8> = vec![];
    want.extend(42u64.to_le_bytes());
    want.push(0); // append-only
    want.extend(100u64.to_le_bytes());
    want.push(0); // replicated
    want.extend(2u32.to_le_bytes());
    want.extend([1, 1]); // any disk of class ssd
    want.push(2); // pinned
    want.extend(7u128.to_le_bytes());
    want.push(0); // chunks
    want.extend(1u32.to_le_bytes());
    want.extend(0u64.to_le_bytes());
    want.extend(2u32.to_le_bytes());
    for id in [1u128, 2] {
        want.extend(id.to_le_bytes());
        want.extend(0u64.to_le_bytes());
    }
    want.extend(100u32.to_le_bytes());
    want.extend(0xdead_beefu32.to_le_bytes());
    want.extend(1000u32.to_le_bytes());
    want.extend(1000u32.to_le_bytes());
    want.extend(0o644u32.to_le_bytes());
    want.extend(1_700_000_000u64.to_le_bytes());
    let mut e = Encoder::new();
    encode_inode_record(&mut e, &sample_inode_record());
    assert_eq!(e.into_vec(), want);
}

#[test]
fn the_bytes_of_the_other_operations() {
    let mut extents: Vec<u8> = 2u64.to_le_bytes().to_vec();
    extents.extend(1u32.to_le_bytes());
    extents.extend(0u64.to_le_bytes());
    extents.extend(5u32.to_le_bytes());
    extents.extend(1u32.to_le_bytes());
    extents.extend(1u128.to_le_bytes());
    extents.extend(0u64.to_le_bytes());
    extents.extend(9u32.to_le_bytes());
    let complete = MetaOp::CompleteConvert {
        inode: 2,
        extents: vec![sample_extent()],
    };
    assert_eq!(encode_op(&complete), [&[5u8][..], &extents].concat());
    let update = MetaOp::UpdateExtents {
        inode: 2,
        extents: vec![sample_extent()],
    };
    assert_eq!(encode_op(&update), [&[9u8][..], &extents].concat());

    let mut map: Vec<u8> = vec![7];
    map.extend(3u64.to_le_bytes());
    map.extend(1u32.to_le_bytes());
    map.extend(1u128.to_le_bytes());
    map.extend([1, 0, 2]); // data only, active, nvme
    map.extend(2.5f64.to_le_bytes());
    map.extend(10u64.to_le_bytes());
    map.extend(100u64.to_le_bytes());
    assert_eq!(encode_op(&MetaOp::PoolMapChange(sample_pool_map())), map);

    let mut group: Vec<u8> = vec![8];
    group.extend(1u128.to_le_bytes());
    group.push(1);
    group.extend(2u128.to_le_bytes());
    group.extend(4u64.to_le_bytes());
    assert_eq!(
        encode_op(&MetaOp::MetaGroupChange(MetaGroup {
            primary: Uuid(1),
            backup: Some(Uuid(2)),
            epoch: 4,
        })),
        group
    );

    let mut scheme: Vec<u8> = vec![6];
    scheme.extend(2u64.to_le_bytes());
    scheme.extend([1, 4, 2]);
    assert_eq!(
        encode_op(&MetaOp::SetRedundancyScheme {
            inode: 2,
            scheme: RedundancyScheme::ErasureCoded {
                data_shards: 4,
                parity_shards: 2,
            },
        }),
        scheme
    );
    assert_eq!(
        encode_op(&MetaOp::BeginConvert { inode: 2 }),
        [4, 2, 0, 0, 0, 0, 0, 0, 0]
    );
    assert_eq!(
        encode_op(&MetaOp::Link {
            parent: 1,
            name: "f".into(),
            child: 2,
        }),
        b"\x01\x01\0\0\0\0\0\0\0\x01\0\0\0f\x02\0\0\0\0\0\0\0"
    );
}
