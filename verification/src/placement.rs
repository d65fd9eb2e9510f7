//! Placement over a pool map: which disks a key goes to, and which disk each
//! replica slot of a file gets.

use crate::hash;
use crate::hrw::{self, DiskCandidate, ReplicaSlotSpec, CLASS_ANY, MAX_SELECT, UNPLACED};
use crate::proto::{
    self, DiskEntry, DiskId, DiskState, PoolMap, RedundancyScheme, ReplicaSlot, SchemeView, Uuid,
};
use vstd::arithmetic::power2::*;
use vstd::prelude::*;

verus! {

/// The placement key of one chunk or extent of a file.
pub fn placement_key(inode: u64, seq: u64) -> (key: u64)
    ensures
        key == hash::id_hash(inode as u128, seq),
{
    hrw::tartine_hash_key(inode, seq)
}

/// The upper and the lower half of an id.
pub fn disk_id_to_hi_lo(id: DiskId) -> (r: (u64, u64))
    ensures
        r.0 == id.0 / 0x1_0000_0000_0000_0000,
        r.1 == id.0 % 0x1_0000_0000_0000_0000,
        hrw::join_id(r.0, r.1) == id.0,
{
    ((id.0 / 0x1_0000_0000_0000_0000) as u64, (id.0 % 0x1_0000_0000_0000_0000) as u64)
}

/// The id of which `hi` and `lo` are the halves.
pub fn disk_id_from_hi_lo(hi: u64, lo: u64) -> (id: DiskId)
    ensures
        id.0 == hrw::join_id(hi, lo),
{
    Uuid(hi as u128 * 0x1_0000_0000_0000_0000 + lo as u128)
}

// ---------------------------------------------------------------------
// Weights

/// How many of the lowest bits of `p` do not fit in 53 bits.
pub open spec fn excess(p: nat) -> nat
    decreases p,
{
    if p < 0x20_0000_0000_0000 {
        0
    } else {
        1 + excess(p / 2)
    }
}

/// `p` rounded to 53 bits, to the nearest and on a tie to even, in units of
/// `2^excess(p)`.
pub open spec fn rounded(p: nat) -> nat {
    let unit = pow2(excess(p));
    let q = p / unit;
    let r = p % unit;
    if 2 * r > unit || (2 * r == unit && q % 2 == 1) {
        q + 1
    } else {
        q
    }
}

/// A weight in thousandths: the binary64 number with these bits, times 1000 in
/// binary64 arithmetic, without its fraction, and between 0 and the largest
/// `u32`. What is not a number counts as 0.
pub open spec fn weight_milli(bits: u64) -> u32 {
    let exponent = (bits as nat / 0x10_0000_0000_0000) % 2048;
    let fraction = bits as nat % 0x10_0000_0000_0000;
    if bits >= 0x8000_0000_0000_0000 {
        0
    } else if exponent == 2047 {
        if fraction == 0 {
            u32::MAX
        } else {
            0
        }
    } else {
        let m = if exponent == 0 {
            fraction
        } else {
            0x10_0000_0000_0000 + fraction
        };
        let e = if exponent == 0 {
            -1074int
        } else {
            exponent - 1075
        };
        let q = rounded(m * 1000);
        let t = excess(m * 1000) + e;
        let whole = if t >= 0 {
            q * pow2(t as nat)
        } else {
            q / pow2((-t) as nat)
        };
        if whole > u32::MAX {
            u32::MAX
        } else {
            whole as u32
        }
    }
}

proof fn lemma_excess(p: nat)
    ensures
        p / pow2(excess(p)) < 0x20_0000_0000_0000,
        excess(p) > 0 ==> p / pow2(excess(p)) >= 0x10_0000_0000_0000,
        excess(p) > 0 ==> p >= 0x20_0000_0000_0000,
    decreases p,
{
    lemma2_to64();
    if p >= 0x20_0000_0000_0000 {
        let s = excess(p / 2);
        lemma_excess(p / 2);
        lemma_pow2_unfold(s + 1);
        lemma_pow2_pos(s);
        vstd::arithmetic::div_mod::lemma_div_denominator(p as int, 2, pow2(s) as int);
    }
}

/// The weight of a disk in thousandths, from the bits of its weight.
pub fn to_weight_milli(bits: u64) -> (w: u32)
    ensures
        w == weight_milli(bits),
{
    let exponent: u64 = (bits / 0x10_0000_0000_0000) % 2048;
    let fraction: u64 = bits % 0x10_0000_0000_0000;
    if bits >= 0x8000_0000_0000_0000 {
        return 0;
    }
    if exponent == 2047 {
        return if fraction == 0 {
            u32::MAX
        } else {
            0
        };
    }
    let m: u64 = if exponent == 0 {
        fraction
    } else {
        0x10_0000_0000_0000 + fraction
    };
    let p: u64 = m * 1000;
    let mut q: u64 = p;
    let mut unit: u64 = 1;
    let mut s: u64 = 0;
    proof {
        lemma2_to64();
        assert(p as nat / 1 == p as nat);
    }
    while q >= 0x20_0000_0000_0000
        invariant
            p <= 0x20_0000_0000_0000 * 1000,
            s <= 10,
            s == 10 ==> q < 0x20_0000_0000_0000,
            unit == pow2(s as nat),
            q as nat == p as nat / pow2(s as nat),
            excess(p as nat) == s + excess(q as nat),
        decreases q,
    {
        proof {
            lemma2_to64();
            lemma_pow2_unfold((s + 1) as nat);
            lemma_pow2_pos(s as nat);
            vstd::arithmetic::div_mod::lemma_div_denominator(
                p as int,
                pow2(s as nat) as int,
                2,
            );
            hrw::lemma_pow2_le(s as nat, 10);
            assert(pow2(s as nat) * 2 == 2 * pow2(s as nat));
        }
        q = q / 2;
        s = s + 1;
        unit = unit * 2;
        proof {
            if s == 10 {
                lemma2_to64();
                assert(p as nat / 1024 < 0x20_0000_0000_0000);
            }
        }
    }
    proof {
        lemma_pow2_pos(s as nat);
        lemma_excess(p as nat);
    }
    let r: u64 = p % unit;
    proof {
        hrw::lemma_pow2_le(s as nat, 10);
        lemma2_to64();
    }
    if 2 * r > unit || (2 * r == unit && q % 2 == 1) {
        q = q + 1;
    }
    assert(q == rounded(p as nat));
    let bias: u64 = if exponent == 0 {
        1074
    } else {
        1075
    };
    if s + exponent >= bias {
        proof {
            assert(exponent > 0);
            assert(m >= 0x10_0000_0000_0000);
            assert(q >= 0x10_0000_0000_0000);
            let t = (s + exponent - bias) as nat;
            lemma_pow2_pos(t);
            assert(q * pow2(t) >= q) by (nonlinear_arith)
                requires
                    pow2(t) >= 1,
            ;
        }
        return u32::MAX;
    }
    let down: u64 = bias - exponent - s;
    if down >= 64 {
        proof {
            lemma2_to64();
            lemma2_to64_rest();
            hrw::lemma_pow2_le(64, down as nat);
            vstd::arithmetic::div_mod::lemma_basic_div(q as int, pow2(down as nat) as int);
        }
        return 0;
    }
    proof {
        vstd::bits::lemma_u64_shr_is_div(q, down);
    }
    let whole: u64 = q >> down;
    if whole > u32::MAX as u64 {
        u32::MAX
    } else {
        whole as u32
    }
}

// ---------------------------------------------------------------------
// Candidates

/// The disk takes new data: it is active and has free space.
pub open spec fn accepts(e: DiskEntry) -> bool {
    e.state == DiskState::Active && e.used_bytes < e.capacity_bytes
}

/// A disk of the pool as a candidate.
pub open spec fn candidate(id: u128, e: DiskEntry) -> DiskCandidate {
    DiskCandidate {
        disk_id_hi: (id / 0x1_0000_0000_0000_0000) as u64,
        disk_id_lo: (id % 0x1_0000_0000_0000_0000) as u64,
        weight_milli: weight_milli(e.weight_bits),
        active: if accepts(e) {
            1
        } else {
            0
        },
        class: proto::class_number(e.class),
    }
}

fn to_candidate(id: u128, entry: &DiskEntry) -> (c: DiskCandidate)
    ensures
        c == candidate(id, *entry),
{
    let (hi, lo) = disk_id_to_hi_lo(Uuid(id));
    DiskCandidate {
        disk_id_hi: hi,
        disk_id_lo: lo,
        weight_milli: to_weight_milli(entry.weight_bits),
        active: if entry.state == DiskState::Active && entry.used_bytes < entry.capacity_bytes {
            1
        } else {
            0
        },
        class: entry.class.to_ffi(),
    }
}

/// Which disks of the pool meet a requirement: `keep` holds those for which
/// the requirement said yes.
pub open spec fn decides<F: Fn(&DiskEntry) -> bool>(
    require_role: F,
    m: Map<u128, DiskEntry>,
    keep: Set<u128>,
) -> bool {
    forall|id: u128| #[trigger]
        m.dom().contains(id) ==> require_role.ensures((&m[id],), keep.contains(id))
}

/// The disk may be chosen: it is in the pool, kept, active and not full.
pub open spec fn may_take(m: Map<u128, DiskEntry>, keep: Set<u128>, id: u128) -> bool {
    m.dom().contains(id) && keep.contains(id) && accepts(m[id])
}

/// Disk `a` ranks above disk `b` for the key.
pub open spec fn outranks(m: Map<u128, DiskEntry>, key: u64, a: u128, b: u128) -> bool {
    hrw::better(candidate(a, m[a]), candidate(b, m[b]), key)
}

/// `ids` lists, best first, the best `want` disks that may be chosen, or all
/// of them where there are fewer.
pub open spec fn is_targets(
    m: Map<u128, DiskEntry>,
    keep: Set<u128>,
    key: u64,
    want: nat,
    ids: Seq<DiskId>,
) -> bool {
    &&& ids.len() <= want
    &&& forall|i: int| 0 <= i < ids.len() ==> may_take(m, keep, (#[trigger] ids[i]).0)
    &&& forall|i: int, j: int|
        0 <= i < j < ids.len() ==> outranks(m, key, (#[trigger] ids[i]).0, (#[trigger] ids[j]).0)
    &&& forall|id: u128| #[trigger]
        may_take(m, keep, id) && !ids.contains(Uuid(id)) ==> ids.len() == want && (want > 0
            ==> outranks(m, key, ids[want - 1].0, id))
}

/// The kept disks of the pool, in the order in which the map is walked.
fn kept_entries<F: Fn(&DiskEntry) -> bool>(pool: &PoolMap, require_role: &F) -> (r: (
    Vec<u128>,
    Vec<DiskCandidate>,
    Ghost<Set<u128>>,
))
    requires
        forall|id: u128| #[trigger]
            pool@.disks.dom().contains(id) ==> require_role.requires((&pool@.disks[id],)),
    ensures
        decides(*require_role, pool@.disks, r.2@),
        listed(pool@.disks, r.2@, r.0@, r.1@),
        r.0@.len() <= pool@.disks.dom().len(),
{
    let pairs = pool.entries();
    let ghost m = pool@.disks;
    let mut ids: Vec<u128> = Vec::new();
    let mut candidates: Vec<DiskCandidate> = Vec::new();
    let mut keep: Ghost<Set<u128>> = Ghost(Set::empty());
    let mut i: usize = 0;
    while i < pairs.len()
        invariant
            i <= pairs@.len(),
            m == pool@.disks,
            proto::lists(pairs@, m),
            pairs@.len() == m.dom().len(),
            forall|id: u128| #[trigger]
                m.dom().contains(id) ==> require_role.requires((&m[id],)),
            ids@.len() <= i,
            ids@.len() == candidates@.len(),
            forall|k: int|
                0 <= k < ids@.len() ==> m.dom().contains(#[trigger] ids@[k]) && keep@.contains(
                    ids@[k],
                ) && candidates@[k] == candidate(ids@[k], m[ids@[k]]),
            forall|k: int, l: int|
                0 <= k < l < ids@.len() ==> #[trigger] ids@[k] != #[trigger] ids@[l],
            forall|k: int|
                0 <= k < i ==> require_role.ensures(
                    (&(#[trigger] pairs@[k]).1,),
                    keep@.contains(pairs@[k].0),
                ),
            forall|id: u128| #[trigger]
                keep@.contains(id) ==> ids@.contains(id) && exists|k: int|
                    0 <= k < i && (#[trigger] pairs@[k]).0 == id,
        decreases pairs@.len() - i,
    {
        let (id, entry) = pairs[i];
        let ghost before = ids@;
        assert(m.dom().contains(pairs@[i as int].0));
        assert(!keep@.contains(id)) by {
            if keep@.contains(id) {
                let k = choose|k: int| 0 <= k < i && (#[trigger] pairs@[k]).0 == id;
                assert(pairs@[k].0 != pairs@[i as int].0);
            }
        }
        let yes: bool = require_role(&entry);
        if yes {
            assert forall|k: int| 0 <= k < ids@.len() implies #[trigger] ids@[k] != id by {
                assert(keep@.contains(ids@[k]));
            }
            ids.push(id);
            candidates.push(to_candidate(id, &entry));
            proof {
                let more = keep@.insert(id);
                assert(ids@[before.len() as int] == id);
                assert forall|k: int| 0 <= k < i implies require_role.ensures(
                    (&(#[trigger] pairs@[k]).1,),
                    more.contains(pairs@[k].0),
                ) by {
                    assert(pairs@[k].0 != pairs@[i as int].0);
                }
                assert forall|x: u128| #[trigger] more.contains(x) implies ids@.contains(x)
                    && exists|k: int| 0 <= k < i + 1 && (#[trigger] pairs@[k]).0 == x by {
                    if x == id {
                        assert(pairs@[i as int].0 == x);
                    } else {
                        assert(keep@.contains(x));
                        let k = before.index_of(x);
                        assert(ids@[k] == x);
                        let l = choose|l: int| 0 <= l < i && (#[trigger] pairs@[l]).0 == x;
                        assert(pairs@[l].0 == x);
                    }
                }
                keep@ = more;
            }
        }
        i = i + 1;
    }
    proof {
        assert forall|id: u128| #[trigger] m.dom().contains(id) implies require_role.ensures(
            (&m[id],),
            keep@.contains(id),
        ) by {
            let k = pairs@.index_of((id, m[id]));
            assert(pairs@[k].0 == id);
        }
    }
    (ids, candidates, keep)
}

/// `ids` lists the kept disks of the pool, each once, and `cs` has the
/// candidates that go with them.
pub open spec fn listed(
    m: Map<u128, DiskEntry>,
    keep: Set<u128>,
    ids: Seq<u128>,
    cs: Seq<DiskCandidate>,
) -> bool {
    &&& ids.len() == cs.len()
    &&& forall|k: int|
        0 <= k < ids.len() ==> m.dom().contains(#[trigger] ids[k]) && keep.contains(ids[k])
            && cs[k] == candidate(ids[k], m[ids[k]])
    &&& forall|k: int, l: int|
        0 <= k < l < ids.len() ==> #[trigger] ids[k] != #[trigger] ids[l]
    &&& forall|id: u128| #[trigger] keep.contains(id) ==> ids.contains(id)
}

proof fn lemma_listed_distinct(
    m: Map<u128, DiskEntry>,
    keep: Set<u128>,
    ids: Seq<u128>,
    cs: Seq<DiskCandidate>,
)
    requires
        listed(m, keep, ids, cs),
    ensures
        hrw::distinct_ids(cs),
{
    assert forall|i: int, j: int|
        #![trigger cs[i], cs[j]]
        0 <= i < cs.len() && 0 <= j < cs.len() && i != j implies cs[i].disk_id_hi
        != cs[j].disk_id_hi || cs[i].disk_id_lo != cs[j].disk_id_lo by {
        let a = ids[i];
        let b = ids[j];
        assert(a != b) by {
            if i < j {
                assert(ids[i] != ids[j]);
            } else {
                assert(ids[j] != ids[i]);
            }
        }
        if cs[i].disk_id_hi == cs[j].disk_id_hi && cs[i].disk_id_lo == cs[j].disk_id_lo {
            assert(a / 0x1_0000_0000_0000_0000 == b / 0x1_0000_0000_0000_0000);
            assert(a % 0x1_0000_0000_0000_0000 == b % 0x1_0000_0000_0000_0000);
        }
    }
}

/// The best `n` active disks with free space for `key` that meet the
/// requirement, best first; at most `MAX_SELECT`.
pub fn targets<F: Fn(&DiskEntry) -> bool>(
    pool: &PoolMap,
    key: u64,
    n: usize,
    require_role: F,
) -> (ids: Vec<DiskId>)
    requires
        pool@.disks.dom().len() <= u32::MAX,
        forall|id: u128| #[trigger]
            pool@.disks.dom().contains(id) ==> require_role.requires((&pool@.disks[id],)),
    ensures
        exists|keep: Set<u128>|
            decides(require_role, pool@.disks, keep) && #[trigger] is_targets(
                pool@.disks,
                keep,
                key,
                hrw::capped(n as nat),
                ids@,
            ),
{
    let (ids, candidates, keep) = kept_entries(pool, &require_role);
    let want: usize = if n < MAX_SELECT {
        n
    } else {
        MAX_SELECT
    };
    let mut out: Vec<u32> = vec![0u32; want];
    let filled: usize = hrw::hrw_select(candidates.as_slice(), key, out.as_mut_slice());
    let ghost sel = Seq::new(filled as nat, |i: int| out@[i] as int);
    let mut chosen: Vec<DiskId> = Vec::new();
    let mut i: usize = 0;
    proof {
        assert forall|k: int| 0 <= k < filled implies (#[trigger] out@[k]) < ids@.len() by {
            assert(sel[k] == out@[k]);
        }
    }
    while i < filled
        invariant
            i <= filled,
            filled <= out@.len(),
            chosen@.len() == i,
            forall|k: int| 0 <= k < filled ==> (#[trigger] out@[k]) < ids@.len(),
            forall|k: int| 0 <= k < i ==> #[trigger] chosen@[k] == Uuid(ids@[out@[k] as int]),
        decreases filled - i,
    {
        chosen.push(Uuid(ids[out[i] as usize]));
        i = i + 1;
    }
    proof {
        lemma_selection_targets(
            pool@.disks,
            keep@,
            ids@,
            candidates@,
            key,
            want as nat,
            sel,
            chosen@,
        );
        assert(decides(require_role, pool@.disks, keep@));
        assert(is_targets(pool@.disks, keep@, key, hrw::capped(n as nat), chosen@));
    }
    chosen
}

proof fn lemma_selection_targets(
    m: Map<u128, DiskEntry>,
    keep: Set<u128>,
    ids: Seq<u128>,
    cs: Seq<DiskCandidate>,
    key: u64,
    want: nat,
    sel: Seq<int>,
    chosen: Seq<DiskId>,
)
    requires
        listed(m, keep, ids, cs),
        hrw::is_selection(cs, key, want, sel),
        chosen.len() == sel.len(),
        forall|k: int| 0 <= k < sel.len() ==> #[trigger] chosen[k] == Uuid(ids[sel[k]]),
    ensures
        is_targets(m, keep, key, want, chosen),
{
    lemma_listed_distinct(m, keep, ids, cs);
    let lt = hrw::order(cs, key);
    let ok = hrw::usable(cs);
    hrw::lemma_order_strict(cs, key);
    assert forall|i: int| 0 <= i < chosen.len() implies may_take(m, keep, (#[trigger] chosen[i]).0) by {
        assert(ok(sel[i]));
    }
    assert forall|i: int, j: int| 0 <= i < j < chosen.len() implies outranks(
        m,
        key,
        (#[trigger] chosen[i]).0,
        (#[trigger] chosen[j]).0,
    ) by {
        assert(lt(sel[i], sel[j]));
        hrw::lemma_distinct_better(cs, key, sel[i], sel[j]);
    }
    assert forall|id: u128| #[trigger]
        may_take(m, keep, id) && !chosen.contains(Uuid(id)) implies chosen.len() == want && (want
        > 0 ==> outranks(m, key, chosen[want - 1].0, id)) by {
        let k = ids.index_of(id);
        assert(ids[k] == id);
        assert(ok(k));
        if sel.contains(k) {
            let i = sel.index_of(k);
            assert(chosen[i] == Uuid(id));
        }
        if want > 0 {
            assert(lt(sel[want - 1], k));
            hrw::lemma_distinct_better(cs, key, sel[want - 1], k);
        }
    }
}

// ---------------------------------------------------------------------
// One disk per slot

#[derive(Debug, PartialEq, Eq, Structural)]
pub enum PlaceError {
    /// Erasure-coded files can be described, not placed.
    ErasureCodedUnimplemented,
}

/// The disk meets the slot's constraint.
pub open spec fn allows(slot: ReplicaSlot, id: u128, e: DiskEntry) -> bool {
    match slot {
        ReplicaSlot::AnyOfClass(None) => true,
        ReplicaSlot::AnyOfClass(Some(c)) => e.class == c,
        ReplicaSlot::Pinned(pin) => id == pin.0,
    }
}

/// The disk may be chosen for the slot, earlier slots having taken `taken`.
pub open spec fn may_fill(
    m: Map<u128, DiskEntry>,
    keep: Set<u128>,
    slot: ReplicaSlot,
    taken: Seq<Option<DiskId>>,
    id: u128,
) -> bool {
    may_take(m, keep, id) && allows(slot, id, m[id]) && !taken.contains(Some(Uuid(id)))
}

/// `pick` is the best disk that may be chosen for the slot, or `None` where
/// there is none.
pub open spec fn is_pick(
    m: Map<u128, DiskEntry>,
    keep: Set<u128>,
    key: u64,
    slot: ReplicaSlot,
    taken: Seq<Option<DiskId>>,
    pick: Option<DiskId>,
) -> bool {
    match pick {
        Some(id) => may_fill(m, keep, slot, taken, id.0) && forall|other: u128| #[trigger]
            may_fill(m, keep, slot, taken, other) && other != id.0 ==> outranks(
                m,
                key,
                id.0,
                other,
            ),
        None => forall|other: u128| !#[trigger] may_fill(m, keep, slot, taken, other),
    }
}

/// `placed` gives each of the first slots its disk, in order.
pub open spec fn is_placed(
    m: Map<u128, DiskEntry>,
    keep: Set<u128>,
    key: u64,
    slots: Seq<ReplicaSlot>,
    placed: Seq<Option<DiskId>>,
) -> bool {
    &&& placed.len() == hrw::capped(slots.len())
    &&& forall|k: int|
        0 <= k < placed.len() ==> is_pick(
            m,
            keep,
            key,
            slots[k],
            placed.take(k),
            #[trigger] placed[k],
        )
}

/// `placed` is the placement of the slots on the disks that meet the
/// requirement.
pub open spec fn places<F: Fn(&DiskEntry) -> bool>(
    require_role: F,
    m: Map<u128, DiskEntry>,
    key: u64,
    slots: Seq<ReplicaSlot>,
    placed: Seq<Option<DiskId>>,
) -> bool {
    exists|keep: Set<u128>|
        decides(require_role, m, keep) && #[trigger] is_placed(m, keep, key, slots, placed)
}

/// The two forms of a slot constrain a disk in the same way.
pub open spec fn same_constraint(spec_slot: ReplicaSlotSpec, slot: ReplicaSlot) -> bool {
    forall|id: u128, e: DiskEntry|
        hrw::fits(spec_slot, #[trigger] candidate(id, e)) == allows(slot, id, e)
}

fn slot_to_spec(slot: &ReplicaSlot) -> (r: ReplicaSlotSpec)
    ensures
        same_constraint(r, *slot),
{
    match slot {
        ReplicaSlot::AnyOfClass(None) => ReplicaSlotSpec {
            required_class: CLASS_ANY,
            pinned: 0,
            _pad: [0, 0],
            pinned_id_hi: 0,
            pinned_id_lo: 0,
        },
        ReplicaSlot::AnyOfClass(Some(class)) => ReplicaSlotSpec {
            required_class: class.to_ffi(),
            pinned: 0,
            _pad: [0, 0],
            pinned_id_hi: 0,
            pinned_id_lo: 0,
        },
        ReplicaSlot::Pinned(id) => {
            let (hi, lo) = disk_id_to_hi_lo(*id);
            let r = ReplicaSlotSpec {
                required_class: CLASS_ANY,
                pinned: 1,
                _pad: [0, 0],
                pinned_id_hi: hi,
                pinned_id_lo: lo,
            };
            assert forall|other: u128, e: DiskEntry|
                hrw::fits(r, #[trigger] candidate(other, e)) == allows(*slot, other, e) by {
                let c = candidate(other, e);
                if c.disk_id_hi == hi && c.disk_id_lo == lo {
                    assert(other / 0x1_0000_0000_0000_0000 == id.0 / 0x1_0000_0000_0000_0000);
                    assert(other % 0x1_0000_0000_0000_0000 == id.0 % 0x1_0000_0000_0000_0000);
                }
            }
            r
        },
    }
}

/// Places each replica slot of `scheme` in order, never on a disk that an
/// earlier slot took. A slot that no disk satisfies gets `None`. Slots past
/// `MAX_SELECT` are not placed at all.
pub fn place_redundancy<F: Fn(&DiskEntry) -> bool>(
    pool: &PoolMap,
    scheme: &RedundancyScheme,
    key: u64,
    require_role: F,
) -> (r: Result<Vec<Option<DiskId>>, PlaceError>)
    requires
        pool@.disks.dom().len() <= u32::MAX,
        forall|id: u128| #[trigger]
            pool@.disks.dom().contains(id) ==> require_role.requires((&pool@.disks[id],)),
    ensures
        scheme@ matches SchemeView::Replicated(slots) ==> r is Ok && places(
            require_role,
            pool@.disks,
            key,
            slots,
            r->Ok_0@,
        ),
        scheme@ is ErasureCoded ==> r == Err::<Vec<Option<DiskId>>, PlaceError>(
            PlaceError::ErasureCodedUnimplemented,
        ),
{
    let slots = match scheme {
        RedundancyScheme::Replicated(slots) => slots,
        RedundancyScheme::ErasureCoded { .. } => {
            return Err(PlaceError::ErasureCodedUnimplemented);
        },
    };
    let (ids, candidates, keep) = kept_entries(pool, &require_role);
    let mut specs: Vec<ReplicaSlotSpec> = Vec::new();
    let mut i: usize = 0;
    while i < slots.len()
        invariant
            i <= slots@.len(),
            specs@.len() == i,
            forall|k: int| 0 <= k < i ==> same_constraint(#[trigger] specs@[k], slots@[k]),
        decreases slots@.len() - i,
    {
        specs.push(slot_to_spec(&slots[i]));
        i = i + 1;
    }
    let want: usize = if specs.len() < MAX_SELECT {
        specs.len()
    } else {
        MAX_SELECT
    };
    let mut out: Vec<u32> = vec![0u32; want];
    let n: usize = hrw::place_redundancy(
        candidates.as_slice(),
        key,
        specs.as_slice(),
        out.as_mut_slice(),
    );
    let ghost choices = hrw::choices(out@, n as nat);
    proof {
        assert forall|k: int| 0 <= k < n implies (#[trigger] out@[k]) == UNPLACED || out@[k]
            < ids@.len() by {
            assert(choices[k] == hrw::choice(out@[k]));
        }
    }
    let mut placed: Vec<Option<DiskId>> = Vec::new();
    let mut k: usize = 0;
    while k < n
        invariant
            k <= n,
            n <= out@.len(),
            placed@.len() == k,
            forall|j: int|
                0 <= j < n ==> (#[trigger] out@[j]) == UNPLACED || out@[j] < ids@.len(),
            forall|j: int|
                0 <= j < k ==> #[trigger] placed@[j] == chosen_id(ids@, hrw::choice(out@[j])),
        decreases n - k,
    {
        if out[k] == UNPLACED {
            placed.push(None);
        } else {
            placed.push(Some(Uuid(ids[out[k] as usize])));
        }
        k = k + 1;
    }
    proof {
        lemma_placement_placed(
            pool@.disks,
            keep@,
            ids@,
            candidates@,
            key,
            slots@,
            specs@,
            choices,
            placed@,
        );
        assert(decides(require_role, pool@.disks, keep@));
        assert(is_placed(pool@.disks, keep@, key, slots@, placed@));
    }
    Ok(placed)
}

/// The disk of a choice.
pub open spec fn chosen_id(ids: Seq<u128>, c: Option<int>) -> Option<DiskId> {
    match c {
        Some(i) => Some(Uuid(ids[i])),
        None => None,
    }
}

proof fn lemma_placement_placed(
    m: Map<u128, DiskEntry>,
    keep: Set<u128>,
    ids: Seq<u128>,
    cs: Seq<DiskCandidate>,
    key: u64,
    slots: Seq<ReplicaSlot>,
    specs: Seq<ReplicaSlotSpec>,
    choices: Seq<Option<int>>,
    placed: Seq<Option<DiskId>>,
)
    requires
        listed(m, keep, ids, cs),
        specs.len() == slots.len(),
        forall|k: int| 0 <= k < slots.len() ==> same_constraint(#[trigger] specs[k], slots[k]),
        hrw::is_placement(cs, key, specs, choices),
        choices.len() == hrw::capped(slots.len()),
        placed.len() == choices.len(),
        forall|j: int|
            0 <= j < placed.len() ==> #[trigger] placed[j] == chosen_id(ids, choices[j]),
    ensures
        is_placed(m, keep, key, slots, placed),
{
    lemma_listed_distinct(m, keep, ids, cs);
    assert forall|k: int| 0 <= k < placed.len() implies is_pick(
        m,
        keep,
        key,
        slots[k],
        placed.take(k),
        #[trigger] placed[k],
    ) by {
        let taken = choices.take(k);
        let taken_ids = placed.take(k);
        let slot = specs[k];
        assert(same_constraint(specs[k], slots[k]));
        assert(hrw::is_pick(cs, key, slot, taken, choices[k]));
        assert forall|j: int| 0 <= j < choices.len() && choices[j] is Some implies 0
            <= (#[trigger] choices[j])->Some_0 < ids.len() by {
            assert(hrw::is_pick(cs, key, specs[j], choices.take(j), choices[j]));
        }
        assert forall|i: int| 0 <= i < ids.len() implies #[trigger] hrw::eligible(
            cs,
            slot,
            taken,
            i,
        ) == may_fill(m, keep, slots[k], taken_ids, ids[i]) by {
            assert(cs[i] == candidate(ids[i], m[ids[i]]));
            if taken.contains(Some(i)) {
                let j = taken.index_of(Some(i));
                assert(choices[j] == Some(i));
                assert(taken_ids[j] == Some(Uuid(ids[i])));
            }
            if taken_ids.contains(Some(Uuid(ids[i]))) {
                let j = taken_ids.index_of(Some(Uuid(ids[i])));
                assert(placed[j] == Some(Uuid(ids[i])));
                assert(choices[j] is Some);
                let l = choices[j]->Some_0;
                assert(ids[l] == ids[i]);
                assert(l == i) by {
                    if l < i {
                        assert(ids[l] != ids[i]);
                    } else if i < l {
                        assert(ids[i] != ids[l]);
                    }
                }
                assert(taken[j] == Some(i));
            }
        }
        assert forall|other: u128| #[trigger]
            may_fill(m, keep, slots[k], taken_ids, other) implies hrw::eligible(
            cs,
            slot,
            taken,
            ids.index_of(other),
        ) && ids[ids.index_of(other)] == other && 0 <= ids.index_of(other) < ids.len() by {
            assert(ids.contains(other));
        }
        match choices[k] {
            Some(i) => {
                assert(hrw::eligible(cs, slot, taken, i));
                assert forall|other: u128| #[trigger]
                    may_fill(m, keep, slots[k], taken_ids, other) && other
                        != ids[i] implies outranks(m, key, ids[i], other) by {
                    let j = ids.index_of(other);
                    assert(hrw::eligible(cs, slot, taken, j));
                    hrw::lemma_distinct_better(cs, key, i, j);
                }
            },
            None => {},
        }
    }
}

// ---------------------------------------------------------------------
// Laws

proof fn lemma_outranks_strict(m: Map<u128, DiskEntry>, key: u64, a: u128, b: u128)
    requires
        outranks(m, key, a, b),
    ensures
        !outranks(m, key, b, a),
        a != b,
{
}

/// The disks of a key are determined by the pool: they do not depend on the
/// order in which the map is walked.
pub proof fn targets_unique(
    m: Map<u128, DiskEntry>,
    keep: Set<u128>,
    key: u64,
    want: nat,
    a: Seq<DiskId>,
    b: Seq<DiskId>,
)
    requires
        is_targets(m, keep, key, want, a),
        is_targets(m, keep, key, want, b),
    ensures
        a == b,
{
    lemma_targets_agree(m, keep, key, want, a, b, if a.len() < b.len() {
        a.len()
    } else {
        b.len()
    });
    if a.len() != b.len() {
        let (s, l) = if a.len() < b.len() {
            (a, b)
        } else {
            (b, a)
        };
        let x = l[s.len() as int];
        assert(may_take(m, keep, x.0));
        if s.contains(x) {
            let i = s.index_of(x);
            assert(a.take(s.len() as int)[i] == b.take(s.len() as int)[i]);
            assert(outranks(m, key, l[i].0, l[s.len() as int].0));
        }
    }
    assert(a =~= a.take(a.len() as int));
    assert(b =~= b.take(b.len() as int));
}

proof fn lemma_targets_next(
    m: Map<u128, DiskEntry>,
    keep: Set<u128>,
    key: u64,
    want: nat,
    a: Seq<DiskId>,
    p: int,
    x: DiskId,
)
    requires
        is_targets(m, keep, key, want, a),
        0 <= p < a.len(),
        may_take(m, keep, x.0),
        !a.take(p).contains(x),
        x != a[p],
    ensures
        outranks(m, key, a[p].0, x.0),
{
    if a.contains(x) {
        let j = a.index_of(x);
        if j < p {
            assert(a.take(p)[j] == x);
        }
        assert(outranks(m, key, a[p].0, a[j].0));
    } else {
        assert(Uuid(x.0) == x);
        assert(outranks(m, key, a[want - 1].0, x.0));
        if p < want - 1 {
            assert(outranks(m, key, a[p].0, a[want - 1].0));
        }
    }
}

proof fn lemma_targets_agree(
    m: Map<u128, DiskEntry>,
    keep: Set<u128>,
    key: u64,
    want: nat,
    a: Seq<DiskId>,
    b: Seq<DiskId>,
    n: nat,
)
    requires
        is_targets(m, keep, key, want, a),
        is_targets(m, keep, key, want, b),
        n <= a.len(),
        n <= b.len(),
    ensures
        a.take(n as int) == b.take(n as int),
    decreases n,
{
    if n > 0 {
        let p = n - 1;
        lemma_targets_agree(m, keep, key, want, a, b, p as nat);
        if a[p] != b[p] {
            assert(!b.take(p).contains(a[p])) by {
                if b.take(p).contains(a[p]) {
                    let i = b.take(p).index_of(a[p]);
                    assert(a.take(p)[i] == a[p]);
                    lemma_outranks_strict(m, key, a[i].0, a[p].0);
                }
            }
            assert(!a.take(p).contains(b[p])) by {
                if a.take(p).contains(b[p]) {
                    let i = a.take(p).index_of(b[p]);
                    assert(b.take(p)[i] == b[p]);
                    lemma_outranks_strict(m, key, b[i].0, b[p].0);
                }
            }
            lemma_targets_next(m, keep, key, want, a, p, b[p]);
            lemma_targets_next(m, keep, key, want, b, p, a[p]);
            lemma_outranks_strict(m, key, a[p].0, b[p].0);
        }
        assert(a.take(n as int) =~= a.take(p).push(a[p]));
        assert(b.take(n as int) =~= b.take(p).push(b[p]));
    } else {
        assert(a.take(0) =~= b.take(0));
    }
}

/// The placement of a file is determined by the pool: it does not depend on
/// the order in which the map is walked.
pub proof fn placed_unique(
    m: Map<u128, DiskEntry>,
    keep: Set<u128>,
    key: u64,
    slots: Seq<ReplicaSlot>,
    a: Seq<Option<DiskId>>,
    b: Seq<Option<DiskId>>,
)
    requires
        is_placed(m, keep, key, slots, a),
        is_placed(m, keep, key, slots, b),
    ensures
        a == b,
{
    lemma_placed_agree(m, keep, key, slots, a, b, a.len());
    assert(a =~= a.take(a.len() as int));
    assert(b =~= b.take(b.len() as int));
}

proof fn lemma_placed_agree(
    m: Map<u128, DiskEntry>,
    keep: Set<u128>,
    key: u64,
    slots: Seq<ReplicaSlot>,
    a: Seq<Option<DiskId>>,
    b: Seq<Option<DiskId>>,
    n: nat,
)
    requires
        is_placed(m, keep, key, slots, a),
        is_placed(m, keep, key, slots, b),
        n <= a.len(),
    ensures
        a.take(n as int) == b.take(n as int),
    decreases n,
{
    if n > 0 {
        let p = n - 1;
        lemma_placed_agree(m, keep, key, slots, a, b, p as nat);
        let taken = a.take(p);
        assert(is_pick(m, keep, key, slots[p], taken, a[p]));
        assert(is_pick(m, keep, key, slots[p], taken, b[p]));
        if a[p] is Some && b[p] is Some && a[p] != b[p] {
            let x = a[p]->Some_0;
            let y = b[p]->Some_0;
            assert(may_fill(m, keep, slots[p], taken, x.0));
            assert(may_fill(m, keep, slots[p], taken, y.0));
            assert(x.0 != y.0);
            lemma_outranks_strict(m, key, x.0, y.0);
        }
        if a[p] is Some {
            assert(may_fill(m, keep, slots[p], taken, a[p]->Some_0.0));
        }
        if b[p] is Some {
            assert(may_fill(m, keep, slots[p], taken, b[p]->Some_0.0));
        }
        assert(a.take(n as int) =~= taken.push(a[p]));
        assert(b.take(n as int) =~= taken.push(b[p]));
    } else {
        assert(a.take(0) =~= b.take(0));
    }
}

/// Only what is said of disks of the pool matters.
pub proof fn lemma_keep_agrees(
    m: Map<u128, DiskEntry>,
    a: Set<u128>,
    b: Set<u128>,
    key: u64,
    slots: Seq<ReplicaSlot>,
    placed: Seq<Option<DiskId>>,
)
    requires
        is_placed(m, a, key, slots, placed),
        forall|id: u128| #[trigger] m.dom().contains(id) ==> a.contains(id) == b.contains(id),
    ensures
        is_placed(m, b, key, slots, placed),
{
    assert forall|k: int| 0 <= k < placed.len() implies is_pick(
        m,
        b,
        key,
        slots[k],
        placed.take(k),
        #[trigger] placed[k],
    ) by {
        let taken = placed.take(k);
        assert(is_pick(m, a, key, slots[k], taken, placed[k]));
        assert forall|id: u128|
            #![trigger may_fill(m, a, slots[k], taken, id)]
            #![trigger may_fill(m, b, slots[k], taken, id)]
            may_fill(m, a, slots[k], taken, id) == may_fill(m, b, slots[k], taken, id) by {
            assert(m.dom().contains(id) ==> a.contains(id) == b.contains(id));
        }
    }
}

/// No two replicas of a file share a disk.
pub proof fn placed_distinct(
    m: Map<u128, DiskEntry>,
    keep: Set<u128>,
    key: u64,
    slots: Seq<ReplicaSlot>,
    placed: Seq<Option<DiskId>>,
    i: int,
    j: int,
)
    requires
        is_placed(m, keep, key, slots, placed),
        0 <= i < j < placed.len(),
        placed[i] is Some,
    ensures
        placed[i] != placed[j],
{
    assert(is_pick(m, keep, key, slots[j], placed.take(j), placed[j]));
    assert(placed.take(j)[i] == placed[i]);
}

/// A pinned slot gets the disk that it names, or none.
pub proof fn pinned_slot_gets_its_disk(
    m: Map<u128, DiskEntry>,
    keep: Set<u128>,
    key: u64,
    slots: Seq<ReplicaSlot>,
    placed: Seq<Option<DiskId>>,
    k: int,
)
    requires
        is_placed(m, keep, key, slots, placed),
        0 <= k < placed.len(),
        slots[k] is Pinned,
    ensures
        placed[k] == (if may_fill(m, keep, slots[k], placed.take(k), slots[k]->Pinned_0.0) {
            Some(slots[k]->Pinned_0)
        } else {
            None
        }),
{
    let pin = slots[k]->Pinned_0;
    assert(is_pick(m, keep, key, slots[k], placed.take(k), placed[k]));
    if placed[k] is Some {
        assert(may_fill(m, keep, slots[k], placed.take(k), placed[k]->Some_0.0));
    }
}

/// A disk may be chosen exactly where it is one of those asked for, is active,
/// and has space left.
pub proof fn active_disks_with_space_may_be_chosen(
    m: Map<u128, DiskEntry>,
    keep: Set<u128>,
    id: u128,
)
    ensures
        may_take(m, keep, id) <==> m.dom().contains(id) && keep.contains(id) && m[id].state
            == DiskState::Active && m[id].used_bytes < m[id].capacity_bytes,
{
}

/// A slot may be filled with any disk, with one of its class, or with the one
/// that it names.
pub proof fn slots_ask_for_what_they_say(slot: ReplicaSlot, id: u128, e: DiskEntry)
    ensures
        match slot {
            ReplicaSlot::AnyOfClass(None) => allows(slot, id, e),
            ReplicaSlot::AnyOfClass(Some(class)) => allows(slot, id, e) <==> e.class == class,
            ReplicaSlot::Pinned(pin) => allows(slot, id, e) <==> pin == Uuid(id),
        },
{
}

/// A disk competes under its own number, with its own weight and class.
pub proof fn disks_compete_as_what_they_are(id: u128, e: DiskEntry)
    ensures
        ({
            let c = candidate(id, e);
            &&& c.disk_id_hi * 0x1_0000_0000_0000_0000 + c.disk_id_lo == id
            &&& c.weight_milli == weight_milli(e.weight_bits)
            &&& c.active != 0 <==> e.state == DiskState::Active && e.used_bytes
                < e.capacity_bytes
            &&& c.class == proto::class_number(e.class)
        }),
{
}

/// The score of a disk for a key.
pub open spec fn score_in(m: Map<u128, DiskEntry>, key: u64, id: u128) -> int {
    hrw::score(hash::id_hash(id, key), weight_milli(m[id].weight_bits))
}

/// Each of the first sixteen slots gets a disk that it may be filled with and that
/// no earlier slot has, and no other such disk scores higher. A slot goes without
/// only where there is no such disk.
pub proof fn each_slot_gets_its_best_disk(
    m: Map<u128, DiskEntry>,
    keep: Set<u128>,
    key: u64,
    slots: Seq<ReplicaSlot>,
    placed: Seq<Option<DiskId>>,
    k: int,
    other: u128,
)
    requires
        is_placed(m, keep, key, slots, placed),
        0 <= k < placed.len(),
        may_take(m, keep, other),
        allows(slots[k], other, m[other]),
        forall|j: int| 0 <= j < k ==> #[trigger] placed[j] != Some(Uuid(other)),
    ensures
        slots.len() <= 16 ==> placed.len() == slots.len(),
        slots.len() > 16 ==> placed.len() == 16,
        placed[k] matches Some(id) && {
            &&& may_take(m, keep, id.0)
            &&& allows(slots[k], id.0, m[id.0])
            &&& score_in(m, key, id.0) >= score_in(m, key, other)
            &&& forall|j: int| 0 <= j < k ==> #[trigger] placed[j] != Some(id)
        },
{
    let taken = placed.take(k);
    assert(is_pick(m, keep, key, slots[k], taken, placed[k]));
    assert(!taken.contains(Some(Uuid(other)))) by {
        if taken.contains(Some(Uuid(other))) {
            let j = taken.index_of(Some(Uuid(other)));
            assert(placed[j] == Some(Uuid(other)));
        }
    }
    assert(may_fill(m, keep, slots[k], taken, other));
    if let Some(id) = placed[k] {
        assert(may_fill(m, keep, slots[k], taken, id.0));
        assert forall|j: int| 0 <= j < k implies #[trigger] placed[j] != Some(id) by {
            assert(taken[j] == placed[j]);
        }
        lemma_score_in(m, key, id.0);
        lemma_score_in(m, key, other);
    }
}

proof fn lemma_score_in(m: Map<u128, DiskEntry>, key: u64, id: u128)
    ensures
        hrw::score_of(candidate(id, m[id]), key) == score_in(m, key, id),
{
    let c = candidate(id, m[id]);
    assert(hrw::join_id(c.disk_id_hi, c.disk_id_lo) == id);
}

/// The disks of a key are among those that may be chosen, none of the others
/// scores higher, and there are as many as were wanted, or all.
pub proof fn the_best_disks_are_the_targets(
    m: Map<u128, DiskEntry>,
    keep: Set<u128>,
    key: u64,
    want: nat,
    ids: Seq<DiskId>,
    i: int,
    other: u128,
)
    requires
        is_targets(m, keep, key, want, ids),
        may_take(m, keep, other),
    ensures
        ids.len() <= want,
        ids.len() < want ==> ids.contains(Uuid(other)),
        0 <= i < ids.len() ==> may_take(m, keep, ids[i].0),
        0 <= i < ids.len() && !ids.contains(Uuid(other)) ==> score_in(m, key, ids[i].0)
            >= score_in(m, key, other),
        forall|j: int|
            0 <= i < j < ids.len() ==> score_in(m, key, ids[i].0) >= score_in(
                m,
                key,
                (#[trigger] ids[j]).0,
            ) && ids[i] != ids[j],
{
    lemma_score_in(m, key, other);
    if 0 <= i < ids.len() {
        lemma_score_in(m, key, ids[i].0);
        if !ids.contains(Uuid(other)) {
            assert(outranks(m, key, ids[want - 1].0, other));
            lemma_score_in(m, key, ids[want - 1].0);
            if i < want - 1 {
                assert(outranks(m, key, ids[i].0, ids[want - 1].0));
            }
        }
        assert forall|j: int| 0 <= i < j < ids.len() implies score_in(m, key, ids[i].0)
            >= score_in(m, key, (#[trigger] ids[j]).0) && ids[i] != ids[j] by {
            assert(outranks(m, key, ids[i].0, ids[j].0));
            lemma_score_in(m, key, ids[j].0);
        }
    }
}

/// A weight that is a multiple of a power of two, a whole number of thousandths,
/// is kept exactly: a disk of weight `k` counts as `1000 k` thousandths.
pub proof fn whole_weights_are_exact(bits: u64, k: nat)
    requires
        bits < 0x8000_0000_0000_0000,
        1 <= k <= 4294967,
        ({
            let exponent = bits as nat / 0x10_0000_0000_0000;
            &&& 1 <= exponent <= 1065
            &&& 0x10_0000_0000_0000 + bits as nat % 0x10_0000_0000_0000 == k * pow2(
                (1075 - exponent) as nat,
            )
        }),
    ensures
        weight_milli(bits) == 1000 * k,
{
    let exponent = bits as nat / 0x10_0000_0000_0000;
    let m = 0x10_0000_0000_0000 + bits as nat % 0x10_0000_0000_0000;
    let s = (1075 - exponent) as nat;
    let p = m * 1000;
    let x = excess(p);
    lemma_excess(p);
    lemma_excess_small(p);
    let unit = pow2(x);
    let rest = (s - x) as nat;
    lemma_pow2_pos(x);
    lemma_pow2_pos(rest);
    lemma_pow2_adds(rest, x);
    assert(p == (1000 * k) * (pow2(rest) * unit)) by (nonlinear_arith)
        requires
            p == (k * pow2(s)) * 1000,
            pow2(s) == pow2(rest) * unit,
    ;
    let q = (1000 * k) * pow2(rest);
    assert(p == q * unit) by (nonlinear_arith)
        requires
            p == (1000 * k) * (pow2(rest) * unit),
            q == (1000 * k) * pow2(rest),
    ;
    vstd::arithmetic::div_mod::lemma_fundamental_div_mod_converse(
        p as int,
        unit as int,
        q as int,
        0,
    );
    assert(rounded(p) == q);
    vstd::arithmetic::div_mod::lemma_fundamental_div_mod_converse(
        q as int,
        pow2(rest) as int,
        (1000 * k) as int,
        0,
    );
    assert((bits as nat / 0x10_0000_0000_0000) % 2048 == exponent);
    let t = excess(m * 1000) + (exponent - 1075);
    assert(t == -rest);
    assert(q / pow2(rest) == 1000 * k);
    if rest == 0 {
        lemma2_to64();
        assert(q == 1000 * k) by (nonlinear_arith)
            requires
                q == (1000 * k) * pow2(rest),
                pow2(rest) == 1,
        ;
        assert(q * pow2(0) == q) by (nonlinear_arith)
            requires
                pow2(0) == 1,
        ;
    } else {
        assert((-t) as nat == rest);
    }
}

proof fn lemma_excess_small(p: nat)
    requires
        p <= 0x20_0000_0000_0000 * 1000,
    ensures
        excess(p) <= 10,
{
    reveal_with_fuel(excess, 12);
}

/// Weights below zero and what is no number count as nothing, and an infinite one
/// as the largest.
pub proof fn odd_weights_count_as_limits(bits: u64)
    ensures
        bits >= 0x8000_0000_0000_0000 ==> weight_milli(bits) == 0,
        bits == 0x7ff0_0000_0000_0000 ==> weight_milli(bits) == 0xffff_ffff,
        0x7ff0_0000_0000_0000 < bits < 0x8000_0000_0000_0000 ==> weight_milli(bits) == 0,
{
}

/// A weight in thousandths is a thousand times the weight, without its fraction or
/// one more, and the largest number where it is larger than that.
pub proof fn weights_are_counted_in_thousandths(bits: u64)
    requires
        0x10_0000_0000_0000 <= bits < 0x7ff0_0000_0000_0000,
    ensures
        ({
            let exponent = bits as nat / 0x10_0000_0000_0000;
            let m = 0x10_0000_0000_0000 + bits as nat % 0x10_0000_0000_0000;
            &&& exponent <= 1065 ==> {
                let f = (1000 * m) / pow2((1075 - exponent) as nat);
                &&& f >= 0xffff_ffff ==> weight_milli(bits) == 0xffff_ffff
                &&& f < 0xffff_ffff ==> f <= weight_milli(bits) <= f + 1
            }
            &&& exponent > 1065 ==> weight_milli(bits) == 0xffff_ffff
        }),
{
    let exponent = bits as nat / 0x10_0000_0000_0000;
    let m = 0x10_0000_0000_0000 + bits as nat % 0x10_0000_0000_0000;
    assert((bits as nat / 0x10_0000_0000_0000) % 2048 == exponent);
    let p = m * 1000;
    let x = excess(p);
    lemma_excess(p);
    lemma_excess_small(p);
    lemma_excess_some(p);
    let unit = pow2(x);
    lemma_pow2_pos(x);
    let q0 = p / unit;
    let q = rounded(p);
    assert(q0 <= q <= q0 + 1);
    let t = x + (exponent - 1075);
    if exponent <= 1065 {
        let s = (1075 - exponent) as nat;
        let rest = (s - x) as nat;
        lemma_pow2_adds(x, rest);
        lemma_pow2_pos(rest);
        vstd::arithmetic::div_mod::lemma_div_denominator(
            p as int,
            unit as int,
            pow2(rest) as int,
        );
        let f = p / pow2(s);
        assert(q0 / pow2(rest) == f);
        vstd::arithmetic::div_mod::lemma_div_is_ordered(
            q0 as int,
            q as int,
            pow2(rest) as int,
        );
        vstd::arithmetic::div_mod::lemma_div_is_ordered(
            q as int,
            (q0 + pow2(rest)) as int,
            pow2(rest) as int,
        );
        lemma_one_more(q0, pow2(rest));
        if rest == 0 {
            lemma2_to64();
            assert(q * pow2(0) == q) by (nonlinear_arith)
                requires
                    pow2(0) == 1,
            ;
            assert(q / 1 == q);
        } else {
            assert((-t) as nat == rest);
        }
    } else if t >= 0 {
        lemma_pow2_pos(t as nat);
        assert(q * pow2(t as nat) >= q) by (nonlinear_arith)
            requires
                pow2(t as nat) >= 1,
        ;
    } else {
        let down = (-t) as nat;
        lemma2_to64();
        hrw::lemma_pow2_le(down, 10);
        lemma_pow2_pos(down);
        vstd::arithmetic::div_mod::lemma_div_is_ordered_by_denominator(
            q as int,
            pow2(down) as int,
            1024,
        );
        assert(q / 1024 > 0xffff_ffff);
    }
}

proof fn lemma_one_more(a: nat, d: nat)
    requires
        d > 0,
    ensures
        (a + d) / d == a / d + 1,
{
    vstd::arithmetic::div_mod::lemma_div_plus_one(a as int, d as int);
}

proof fn lemma_excess_some(p: nat)
    requires
        p >= 0x10_0000_0000_0000 * 1000,
    ensures
        excess(p) > 0,
{
}

} // verus!
