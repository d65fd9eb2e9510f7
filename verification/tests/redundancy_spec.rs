use tartine::proto::{DiskClass, RedundancyScheme, ReplicaSlot, Uuid};
use tartine::redundancy_spec::{self, parse, ParseError};

#[test]
fn bare_count_is_n_any_slots() {
    assert_eq!(
        parse("3").unwrap(),
        RedundancyScheme::Replicated(vec![ReplicaSlot::AnyOfClass(None); 3])
    );
}

#[test]
fn unreplicated_on_ssd() {
    assert_eq!(
        parse("ssd").unwrap(),
        RedundancyScheme::Replicated(vec![ReplicaSlot::AnyOfClass(Some(DiskClass::Ssd))])
    );
}

#[test]
fn unreplicated_pinned_to_a_disk() {
    let spec = "disk:00000000000000000000000000002a";
    assert_eq!(
        parse(spec).unwrap(),
        RedundancyScheme::Replicated(vec![ReplicaSlot::Pinned(Uuid(42))])
    );
}

#[test]
fn one_hdd_one_ssd() {
    assert_eq!(
        parse("hdd,ssd").unwrap(),
        RedundancyScheme::Replicated(vec![
            ReplicaSlot::AnyOfClass(Some(DiskClass::Hdd)),
            ReplicaSlot::AnyOfClass(Some(DiskClass::Ssd)),
        ])
    );
}

#[test]
fn erasure_coding_syntax_parses_but_is_reserved() {
    assert_eq!(
        parse("rs:4+2").unwrap(),
        RedundancyScheme::ErasureCoded {
            data_shards: 4,
            parity_shards: 2
        }
    );
}

#[test]
fn round_trips_through_format() {
    for spec in ["any", "ssd", "hdd,ssd", "rs:4+2"] {
        let scheme = parse(spec).unwrap();
        assert_eq!(parse(&redundancy_spec::format(&scheme)).unwrap(), scheme);
    }
}

#[test]
fn rejects_garbage() {
    assert!(matches!(parse("banana"), Err(ParseError::UnknownSlot(_))));
    assert!(matches!(parse(""), Err(ParseError::Empty)));
    assert!(matches!(parse("disk:not-hex"), Err(ParseError::BadUuid(_))));
    assert!(matches!(
        parse("rs:4"),
        Err(ParseError::BadErasureCoding(_))
    ));
}

#[test]
fn the_text_of_a_scheme() {
    let scheme = RedundancyScheme::Replicated(vec![
        ReplicaSlot::AnyOfClass(None),
        ReplicaSlot::AnyOfClass(Some(DiskClass::Nvme)),
        ReplicaSlot::Pinned(Uuid(0x2a)),
    ]);
    assert_eq!(
        redundancy_spec::format(&scheme),
        "any,nvme,disk:0000000000000000000000000000002a"
    );
    assert_eq!(parse(&redundancy_spec::format(&scheme)).unwrap(), scheme);
    let coded = RedundancyScheme::ErasureCoded {
        data_shards: 10,
        parity_shards: 255,
    };
    assert_eq!(redundancy_spec::format(&coded), "rs:10+255");
    assert_eq!(parse("rs:10+255").unwrap(), coded);
}

#[test]
fn white_space_dashes_and_signs() {
    assert_eq!(parse("  +2\n").unwrap(), parse("any, any").unwrap());
    assert_eq!(
        parse("disk:0000-002A").unwrap(),
        RedundancyScheme::Replicated(vec![ReplicaSlot::Pinned(Uuid(42))])
    );
    assert_eq!(parse(" \t "), Err(ParseError::Empty));
}

#[test]
fn at_most_sixteen_slots() {
    assert!(parse("16").is_ok());
    assert_eq!(parse("17"), Err(ParseError::TooManySlots(17)));
    let many = ["ssd"; 17].join(",");
    assert_eq!(parse(&many), Err(ParseError::TooManySlots(17)));
}

#[test]
fn what_the_errors_say() {
    assert_eq!(
        parse("").unwrap_err().message(),
        "empty redundancy spec"
    );
    assert_eq!(
        parse("hdd, ban\"ana").unwrap_err().message(),
        "unknown slot \"ban\\\"ana\" (expected any/hdd/ssd/nvme/disk:<uuid>)"
    );
    assert_eq!(
        parse("disk:xyz").unwrap_err().message(),
        "invalid disk id \"xyz\""
    );
    assert_eq!(
        parse("rs:300+1").unwrap_err().message(),
        "invalid erasure coding spec \"rs:300+1\" (expected rs:<k>+<m>)"
    );
    assert_eq!(
        parse("99").unwrap_err().message(),
        "99 slots exceeds the maximum of 16"
    );
}

#[test]
fn no_slots_are_a_count() {
    let none = RedundancyScheme::Replicated(vec![]);
    assert_eq!(parse("0").unwrap(), none);
    assert_eq!(redundancy_spec::format(&none), "0");
    assert_eq!(parse(&redundancy_spec::format(&none)).unwrap(), none);
}
