use std::collections::HashMap;
use tartine::placement::{
    disk_id_from_hi_lo, disk_id_to_hi_lo, place_redundancy, placement_key, targets,
    to_weight_milli, PlaceError,
};
use tartine::proto::{
    DiskClass, DiskEntry, DiskRoles, DiskState, PoolMap, RedundancyScheme, ReplicaSlot, Uuid,
};

fn disk_entry(class: DiskClass) -> DiskEntry {
    DiskEntry {
        roles: DiskRoles {
            data: true,
            metadata: false,
        },
        state: DiskState::Active,
        class,
        weight_bits: 1.0f64.to_bits(),
        used_bytes: 0,
        capacity_bytes: 1,
    }
}

fn pool_of(n: usize) -> PoolMap {
    let mut disks = HashMap::new();
    for i in 0..n {
        disks.insert(i as u128 + 1, disk_entry(DiskClass::Hdd));
    }
    PoolMap { epoch: 0, disks }
}

#[test]
fn picks_requested_count() {
    let pool = pool_of(5);
    let key = placement_key(42, 0);
    let t = targets(&pool, key, 3, |e| e.roles.data);
    assert_eq!(t.len(), 3);
    assert_eq!(t.iter().collect::<std::collections::HashSet<_>>().len(), 3);
}

#[test]
fn adding_a_disk_moves_a_minority_of_keys() {
    let before = pool_of(10);
    let mut after = before.clone();
    after.disks.insert(999, disk_entry(DiskClass::Hdd));

    let mut changed = 0;
    for k in 0u64..1000 {
        let key = placement_key(k, 0);
        let a = targets(&before, key, 2, |e| e.roles.data);
        let b = targets(&after, key, 2, |e| e.roles.data);
        if a != b {
            changed += 1;
        }
    }
    assert!(changed < 1000 / 3, "changed = {changed}");
}

#[test]
fn place_redundancy_one_hdd_one_ssd() {
    let mut pool = pool_of(3); // all HDD
    pool.disks.insert(100, disk_entry(DiskClass::Ssd));
    pool.disks.insert(101, disk_entry(DiskClass::Ssd));

    let scheme = RedundancyScheme::Replicated(vec![
        ReplicaSlot::AnyOfClass(Some(DiskClass::Hdd)),
        ReplicaSlot::AnyOfClass(Some(DiskClass::Ssd)),
    ]);
    let placed = place_redundancy(&pool, &scheme, 7, |e| e.roles.data).unwrap();
    assert_eq!(placed.len(), 2);
    let hdd_disk = placed[0].expect("hdd slot placed");
    let ssd_disk = placed[1].expect("ssd slot placed");
    assert_eq!(pool.disks[&hdd_disk.0].class, DiskClass::Hdd);
    assert_eq!(pool.disks[&ssd_disk.0].class, DiskClass::Ssd);
}

#[test]
fn place_redundancy_pinned_disk() {
    let pool = pool_of(5);
    let pinned = Uuid(3);
    let scheme = RedundancyScheme::Replicated(vec![ReplicaSlot::Pinned(pinned)]);
    let placed = place_redundancy(&pool, &scheme, 42, |e| e.roles.data).unwrap();
    assert_eq!(placed, vec![Some(pinned)]);
}

#[test]
fn place_redundancy_unreplicated_any_disk_is_just_one_slot() {
    let pool = pool_of(5);
    let scheme = RedundancyScheme::Replicated(vec![ReplicaSlot::AnyOfClass(None)]);
    let placed = place_redundancy(&pool, &scheme, 1, |e| e.roles.data).unwrap();
    assert_eq!(placed.len(), 1);
    assert!(placed[0].is_some());
}

#[test]
fn place_redundancy_rejects_erasure_coded() {
    let pool = pool_of(5);
    let scheme = RedundancyScheme::ErasureCoded {
        data_shards: 4,
        parity_shards: 2,
    };
    assert_eq!(
        place_redundancy(&pool, &scheme, 1, |e| e.roles.data),
        Err(PlaceError::ErasureCodedUnimplemented)
    );
}

#[test]
fn the_order_of_the_targets() {
    // the disks with the ids 5, 1, 3, 2, 4 in the order of their scores
    let pool = pool_of(5);
    assert_eq!(
        targets(&pool, 123456789, 4, |_| true),
        vec![Uuid(5), Uuid(1), Uuid(3), Uuid(2)]
    );
}

#[test]
fn disks_without_the_role_or_out_of_service_are_passed_over() {
    let mut pool = pool_of(5);
    let mut draining = disk_entry(DiskClass::Hdd);
    draining.state = DiskState::Draining;
    pool.disks.insert(5, draining);
    let mut log_only = disk_entry(DiskClass::Hdd);
    log_only.roles.data = false;
    pool.disks.insert(1, log_only);
    assert_eq!(
        targets(&pool, 123456789, 5, |e| e.roles.data),
        vec![Uuid(3), Uuid(2), Uuid(4)]
    );
    let scheme = RedundancyScheme::Replicated(vec![
        ReplicaSlot::Pinned(Uuid(5)),
        ReplicaSlot::AnyOfClass(None),
        ReplicaSlot::AnyOfClass(Some(DiskClass::Nvme)),
    ]);
    assert_eq!(
        place_redundancy(&pool, &scheme, 123456789, |e| e.roles.data),
        Ok(vec![None, Some(Uuid(3)), None])
    );
}

#[test]
fn slots_past_the_last_are_not_placed() {
    let pool = pool_of(20);
    let scheme = RedundancyScheme::Replicated(vec![ReplicaSlot::AnyOfClass(None); 18]);
    let placed = place_redundancy(&pool, &scheme, 1, |_| true).unwrap();
    assert_eq!(placed.len(), 16);
    assert_eq!(targets(&pool, 1, 18, |_| true).len(), 16);
}

#[test]
fn ids_split_into_halves() {
    let id = Uuid((7u128 << 64) | 9);
    assert_eq!(disk_id_to_hi_lo(id), (7, 9));
    assert_eq!(disk_id_from_hi_lo(7, 9), id);
    assert_eq!(disk_id_from_hi_lo(u64::MAX, u64::MAX), Uuid(u128::MAX));
}

/// The rounding, the clamping and the saturation of the float conversion.
#[test]
fn weights_convert_as_floats_do() {
    let mut samples: Vec<f64> = vec![
        0.0,
        -0.0,
        1.0,
        -1.0,
        0.001,
        0.0009,
        0.0005,
        2.5,
        0.1 + 0.2,
        1.0 / 3.0,
        1e-300,
        f64::MIN_POSITIVE,
        4.9e-324,
        1e300,
        f64::MAX,
        f64::MIN,
        f64::INFINITY,
        f64::NEG_INFINITY,
        f64::NAN,
        -f64::NAN,
        4294967.295,
        4294967.294,
        4294967.296,
        1.0009999999999999,
        1.0009999999999997,
        3.0069999999999997,
        16.384,
        0.0019999999999999998,
    ];
    let mut x: u64 = 0x9e37_79b9_7f4a_7c15;
    for _ in 0..20000 {
        x ^= x << 13;
        x ^= x >> 7;
        x ^= x << 17;
        samples.push((x % 5_000_000_000) as f64 / 1_000_003.0);
        samples.push(f64::from_bits(x));
    }
    for w in samples {
        assert_eq!(
            to_weight_milli(w.to_bits()),
            (w.max(0.0) * 1000.0) as u32,
            "weight {w}"
        );
    }
}

#[test]
fn disks_on_the_command_line() {
    let d = tartine::args::parse_disk("/dev/a.img:nvme").unwrap();
    assert_eq!((d.path.as_str(), d.class), ("/dev/a.img", DiskClass::Nvme));
    let d = tartine::args::parse_disk("plain").unwrap();
    assert_eq!((d.path.as_str(), d.class), ("plain", DiskClass::Hdd));
    assert_eq!(
        tartine::args::parse_disk("a:ssd:hdd").err(),
        Some("ssd:hdd".to_string())
    );
    assert_eq!(tartine::args::parse_class("ssd"), Some(DiskClass::Ssd));
    assert_eq!(tartine::args::parse_class("SSD"), None);
}

#[test]
fn full_disks_are_skipped() {
    let mut pool = pool_of(3);
    for key in 0..50u64 {
        let best = targets(&pool, key, 1, |e| e.roles.data)[0];
        let full = pool.disks.get_mut(&best.0).unwrap();
        full.used_bytes = full.capacity_bytes;
        let others = targets(&pool, key, 3, |e| e.roles.data);
        assert_eq!(others.len(), 2);
        assert!(!others.contains(&best));
        let pinned = RedundancyScheme::Replicated(vec![
            ReplicaSlot::Pinned(best),
            ReplicaSlot::AnyOfClass(None),
        ]);
        let placed = place_redundancy(&pool, &pinned, key, |e| e.roles.data).unwrap();
        assert_eq!(placed, vec![None, Some(others[0])]);
        pool.disks.get_mut(&best.0).unwrap().used_bytes = 0;
    }
    // one byte is free space
    let mut one = pool_of(1);
    one.disks.get_mut(&1).unwrap().used_bytes = 1;
    assert_eq!(targets(&one, 7, 1, |e| e.roles.data), vec![]);
    one.disks.get_mut(&1).unwrap().capacity_bytes = 2;
    assert_eq!(targets(&one, 7, 1, |e| e.roles.data), vec![Uuid(1)]);
}
