use tartine::ioctl::{
    decode_set_redundancy, encode_set_redundancy, TartineState, REDUNDANCY_WIRE_SIZE,
};
use tartine::proto::{DiskClass, RedundancyScheme, ReplicaSlot, Uuid};

#[test]
fn round_trips_any_and_class_and_pinned_slots() {
    let scheme = RedundancyScheme::Replicated(vec![
        ReplicaSlot::AnyOfClass(None),
        ReplicaSlot::AnyOfClass(Some(DiskClass::Ssd)),
        ReplicaSlot::Pinned(Uuid(0x1234_5678_9abc_def0)),
    ]);
    let wire = encode_set_redundancy(&scheme);
    assert_eq!(wire.len(), REDUNDANCY_WIRE_SIZE);
    let decoded = decode_set_redundancy(&wire).unwrap();
    assert_eq!(decoded, scheme);
}

#[test]
fn round_trips_erasure_coded_reservation() {
    let scheme = RedundancyScheme::ErasureCoded {
        data_shards: 4,
        parity_shards: 2,
    };
    let wire = encode_set_redundancy(&scheme);
    assert_eq!(decode_set_redundancy(&wire).unwrap(), scheme);
}

#[test]
fn rejects_wrong_length() {
    assert!(decode_set_redundancy(&[0u8; 10]).is_none());
}

#[test]
fn the_image_of_a_pinned_slot() {
    let id = Uuid((0x0102_0304_0506_0708u128 << 64) | 0x1112_1314_1516_1718);
    let wire = encode_set_redundancy(&RedundancyScheme::Replicated(vec![ReplicaSlot::Pinned(id)]));
    assert_eq!(&wire[0..16], &[0, 0, 0, 0, 1, 0, 0, 0, 0, 0, 0, 0, 0, 0, 0, 0]);
    assert_eq!(
        &wire[16..40],
        &[
            0xff, 1, 0, 0, 0, 0, 0, 0, 8, 7, 6, 5, 4, 3, 2, 1, 0x18, 0x17, 0x16, 0x15, 0x14, 0x13,
            0x12, 0x11
        ]
    );
    assert!(wire[40..].iter().all(|b| *b == 0));
}

#[test]
fn slots_beyond_the_last_are_dropped() {
    let scheme = RedundancyScheme::Replicated(vec![ReplicaSlot::AnyOfClass(None); 20]);
    let decoded = decode_set_redundancy(&encode_set_redundancy(&scheme)).unwrap();
    assert_eq!(
        decoded,
        RedundancyScheme::Replicated(vec![ReplicaSlot::AnyOfClass(None); 16])
    );
}

#[test]
fn malformed_images_are_refused() {
    let mut wire = encode_set_redundancy(&RedundancyScheme::Replicated(vec![
        ReplicaSlot::AnyOfClass(Some(DiskClass::Hdd)),
    ]));
    assert!(decode_set_redundancy(&wire).is_some());
    wire[16] = 9; // no such class
    assert!(decode_set_redundancy(&wire).is_none());
    wire[17] = 1; // the class of a pinned slot does not matter
    assert!(decode_set_redundancy(&wire).is_some());
    wire[4] = 17; // more slots than there is room for
    assert!(decode_set_redundancy(&wire).is_none());
    wire[0] = 2; // no such kind
    assert!(decode_set_redundancy(&wire).is_none());
}

#[test]
fn the_image_of_a_state() {
    let state = TartineState {
        mode: 2,
        _pad: 0,
        bytes_total: 0x0102,
        bytes_converted: 0x0304,
    };
    assert_eq!(
        state.to_bytes(),
        [2, 0, 0, 0, 0, 0, 0, 0, 2, 1, 0, 0, 0, 0, 0, 0, 4, 3, 0, 0, 0, 0, 0, 0]
    );
}
