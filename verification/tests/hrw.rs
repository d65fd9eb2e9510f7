use tartine::hrw::{
    hrw_score, hrw_select, neg_log2_q16, place_redundancy, DiskCandidate, ReplicaSlotSpec,
    CLASS_ANY, CLASS_HDD, CLASS_SSD, UNPLACED,
};

fn candidates(n: usize) -> Vec<DiskCandidate> {
    (0..n)
        .map(|i| DiskCandidate {
            disk_id_hi: 0,
            disk_id_lo: i as u64 + 1,
            weight_milli: 1000,
            active: 1,
            class: CLASS_HDD,
        })
        .collect()
}

fn slot(required_class: u8) -> ReplicaSlotSpec {
    ReplicaSlotSpec {
        required_class,
        pinned: 0,
        _pad: [0; 2],
        pinned_id_hi: 0,
        pinned_id_lo: 0,
    }
}

fn pinned(lo: u64) -> ReplicaSlotSpec {
    ReplicaSlotSpec {
        required_class: CLASS_ANY,
        pinned: 1,
        _pad: [0; 2],
        pinned_id_hi: 0,
        pinned_id_lo: lo,
    }
}

#[test]
fn neg_log2_q16_sanity() {
    assert_eq!(neg_log2_q16(u64::MAX), 0); // u = 1
    assert_eq!(neg_log2_q16(0), 64 << 16); // u = 2^-64
                                           // h + 1 = 2^63, u = 1/2, -log2(u) = 1.0 exactly
    assert_eq!(neg_log2_q16((1u64 << 63) - 1), 1 << 16);
}

#[test]
fn picks_requested_count_no_duplicates() {
    let c = candidates(5);
    let mut out = [0u32; 3];
    let n = hrw_select(&c, 42, &mut out);
    assert_eq!(n, 3);
    let mut sorted = out.to_vec();
    sorted.sort_unstable();
    sorted.dedup();
    assert_eq!(sorted.len(), 3);
}

#[test]
fn fewer_active_than_requested_returns_fewer() {
    let mut c = candidates(5);
    for cand in c.iter_mut().skip(2) {
        cand.active = 0;
    }
    let mut out = [0u32; 3];
    let n = hrw_select(&c, 7, &mut out);
    assert_eq!(n, 2);
}

#[test]
fn placement_adding_a_disk_moves_a_minority_of_keys() {
    let before = candidates(10);
    let mut after = before.clone();
    after.push(DiskCandidate {
        disk_id_hi: 0,
        disk_id_lo: 999,
        weight_milli: 1000,
        active: 1,
        class: CLASS_HDD,
    });

    let mut changed = 0;
    for key in 0u64..1000 {
        let mut a = [0u32; 2];
        let mut b = [0u32; 2];
        hrw_select(&before, key, &mut a);
        hrw_select(&after, key, &mut b);
        if a != b {
            changed += 1;
        }
    }
    assert!(changed < 1000 / 3, "changed = {changed}");
}

#[test]
fn weighted_selection_is_capacity_proportional() {
    // Weights 1:3, so the heavy disk should win 75% of the keys. Multiplying
    // the hash by the weight would give it about 83%: the tolerance band
    // deliberately excludes that.
    let c = vec![
        DiskCandidate {
            disk_id_hi: 0,
            disk_id_lo: 1,
            weight_milli: 1000,
            active: 1,
            class: CLASS_HDD,
        },
        DiskCandidate {
            disk_id_hi: 0,
            disk_id_lo: 2,
            weight_milli: 3000,
            active: 1,
            class: CLASS_HDD,
        },
    ];
    let trials = 20_000u64;
    let mut heavy = 0u64;
    for key in 0..trials {
        let mut out = [0u32; 1];
        assert_eq!(hrw_select(&c, key, &mut out), 1);
        if out[0] == 1 {
            heavy += 1;
        }
    }
    let frac = heavy as f64 / trials as f64;
    assert!(
        (0.72..=0.78).contains(&frac),
        "heavy-disk fraction = {frac}"
    );
}

#[test]
fn equal_weights_select_uniformly() {
    let c = candidates(4);
    let trials = 20_000u64;
    let mut counts = [0u64; 4];
    for key in 0..trials {
        let mut out = [0u32; 1];
        hrw_select(&c, key, &mut out);
        counts[out[0] as usize] += 1;
    }
    for (i, &n) in counts.iter().enumerate() {
        let frac = n as f64 / trials as f64;
        assert!((0.22..=0.28).contains(&frac), "disk {i} fraction = {frac}");
    }
}

#[test]
fn logarithms_to_the_last_bit() {
    assert_eq!(neg_log2_q16(1), 4128768);
    assert_eq!(neg_log2_q16(2), 4090432);
    assert_eq!(neg_log2_q16(12345), 3303555);
    assert_eq!(neg_log2_q16(0xdead_beef_dead_beef), 13185);
    assert_eq!(neg_log2_q16(u64::MAX - 1), 1);
}

#[test]
fn scores_to_the_last_bit() {
    assert_eq!(hrw_score(0, 1, 42, 1000), 533698185213214663);
    assert_eq!(hrw_score(5, 9, 7, 3000), 414288415253360594);
    // a weight of nothing counts as the least weight
    assert_eq!(hrw_score(0, 1, 42, 0), 533698185213214);
    assert_eq!(hrw_score(0, 1, 42, 0), hrw_score(0, 1, 42, 1));
}

#[test]
fn the_order_of_a_selection() {
    let c = candidates(5);
    let mut out = [77u32; 7];
    assert_eq!(hrw_select(&c, KEY, &mut out), 5);
    assert_eq!(out, ORDER);
    // listing the candidates the other way round selects the same disks
    let mut back = c.clone();
    back.reverse();
    let mut turned = [0u32; 5];
    hrw_select(&back, KEY, &mut turned);
    for i in 0..5 {
        assert_eq!(turned[i], 4 - out[i]);
    }
}

const KEY: u64 = 123456789;

const ORDER: [u32; 7] = [4, 0, 2, 1, 3, 77, 77];

#[test]
fn no_room_selects_nothing() {
    let mut none: [u32; 0] = [];
    assert_eq!(hrw_select(&candidates(3), 1, &mut none), 0);
    let mut many = [0u32; 40];
    assert_eq!(hrw_select(&candidates(30), 1, &mut many), 16);
}

#[test]
fn slots_of_a_class_and_pinned_slots() {
    let mut c = candidates(4);
    c[2].class = CLASS_SSD;
    let mut out = [0u32; 4];
    let slots = [
        slot(CLASS_SSD),
        slot(CLASS_SSD),
        pinned(4),
        slot(CLASS_ANY),
    ];
    assert_eq!(place_redundancy(&c, 5, &slots, &mut out), 4);
    assert_eq!(out[0], 2);
    assert_eq!(out[1], UNPLACED); // the only one is taken
    assert_eq!(out[2], 3);
    assert!(out[3] == 0 || out[3] == 1);
}

#[test]
fn a_pinned_disk_that_is_out_of_service_is_not_placed() {
    let mut c = candidates(3);
    c[1].active = 0;
    let mut out = [0u32; 3];
    let slots = [pinned(2), pinned(9), pinned(1)];
    assert_eq!(place_redundancy(&c, 5, &slots, &mut out), 3);
    assert_eq!(out, [UNPLACED, UNPLACED, 0]);
}

#[test]
fn uniform_slots_are_placed_as_selected() {
    let c = candidates(6);
    for key in 0..50u64 {
        let mut chosen = [0u32; 3];
        let mut placed = [0u32; 3];
        assert_eq!(hrw_select(&c, key, &mut chosen), 3);
        assert_eq!(
            place_redundancy(&c, key, &[slot(CLASS_ANY); 3], &mut placed),
            3
        );
        assert_eq!(chosen, placed);
    }
}

#[test]
fn a_new_disk_only_takes_over() {
    let before = candidates(8);
    let after = candidates(9);
    for key in 0..200u64 {
        let mut a = [0u32; 3];
        let mut b = [0u32; 3];
        hrw_select(&before, key, &mut a);
        hrw_select(&after, key, &mut b);
        for i in b {
            assert!(i == 8 || a.contains(&i));
        }
    }
}

/// The logarithm is cut off, never rounded up, and less than one unit of the
/// last place is lost.
#[test]
fn logarithms_are_those_of_real_numbers() {
    let mut x: u64 = 0x9e37_79b9_7f4a_7c15;
    let mut last: Vec<(u64, u64)> = vec![];
    for _ in 0..5000 {
        x ^= x << 13;
        x ^= x >> 7;
        x ^= x << 17;
        let units = (64 << 16) - neg_log2_q16(x);
        let real = ((x as f64) + 1.0).log2() * 65536.0;
        let lost = real - units as f64;
        assert!((-0.001..1.001).contains(&lost), "{x:#x}: {lost}");
        last.push((x, neg_log2_q16(x)));
    }
    last.sort();
    for pair in last.windows(2) {
        assert!(pair[0].1 >= pair[1].1);
    }
    // the real value is 3844944.00000...
    assert_eq!((64 << 16) - neg_log2_q16(0x65c57f6fa1a4e0b), 3844944);
}

/// On both sides of a number whose logarithm is a whole number of units.
#[test]
fn logarithms_are_exact_to_the_last_unit() {
    assert_eq!(neg_log2_q16(9223469590594453502), 65535);
    // 2^63 * 2^(1 / 65536) lies between the two
    assert_eq!(neg_log2_q16(9223469589163912706 - 1), 65536);
    assert_eq!(neg_log2_q16(9223469589163912707 - 1), 65535);
    assert_eq!(neg_log2_q16((1 << 62) - 1), 2 << 16);
    assert_eq!(neg_log2_q16(1 << 62), 2 << 16);
    assert_eq!(neg_log2_q16((1 << 62) - 2), (2 << 16) + 1);
}

#[test]
fn heavier_disks_score_higher() {
    for key in 0..100u64 {
        assert!(hrw_score(0, 7, key, 1000) <= hrw_score(0, 7, key, 1001));
        assert!(hrw_score(0, 7, key, 0) <= hrw_score(0, 7, key, 2));
    }
}
