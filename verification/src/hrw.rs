//! Rendezvous placement over plain candidate lists: scoring, the choice of
//! the best disks for a key, and the choice of one disk per replica slot.
//!
//! A candidate's score is `weight / -log2(u)`, where `u` is its hash for the
//! key as a number in `(0, 1]`. The logarithm is kept in fixed point with 16
//! fractional bits, so no floating point is involved anywhere.

use crate::hash;
use crate::log2;
use crate::top;
use vstd::arithmetic::power::*;
use vstd::arithmetic::power2::*;
use vstd::prelude::*;

verus! {

/// The hard cap on how many replicas one call selects.
pub const MAX_SELECT: usize = 16;

/// As many as are asked for, at most `MAX_SELECT`.
pub open spec fn capped(n: nat) -> nat {
    if n < MAX_SELECT {
        n
    } else {
        MAX_SELECT as nat
    }
}

pub const CLASS_HDD: u8 = 0;

pub const CLASS_SSD: u8 = 1;

pub const CLASS_NVME: u8 = 2;

/// In a slot: no constraint on the class.
pub const CLASS_ANY: u8 = 0xff;

/// In a placement: no candidate satisfies the slot.
pub const UNPLACED: u32 = 0xffff_ffff;

/// One disk as the caller lists it.
#[derive(Clone, Copy)]
pub struct DiskCandidate {
    pub disk_id_hi: u64,
    pub disk_id_lo: u64,
    /// The weight in thousandths.
    pub weight_milli: u32,
    /// Not zero where the disk may be chosen.
    pub active: u8,
    /// One of the `CLASS_` values other than `CLASS_ANY`.
    pub class: u8,
}

/// One replica slot as the caller asks for it.
#[derive(Clone, Copy)]
pub struct ReplicaSlotSpec {
    pub required_class: u8,
    /// Not zero where the slot names its disk.
    pub pinned: u8,
    pub _pad: [u8; 2],
    pub pinned_id_hi: u64,
    pub pinned_id_lo: u64,
}

// ---------------------------------------------------------------------
// Scores

/// The largest `e` with `2^e <= x`; 0 for `x == 0`.
pub open spec fn floor_log2(x: nat) -> nat
    decreases x,
{
    if x < 2 {
        0
    } else {
        1 + floor_log2(x / 2)
    }
}

/// `-log2((h + 1) / 2^64)` with 16 fractional bits, rounded up.
pub open spec fn neg_log2(h: u64) -> int {
    64 * 0x1_0000 - log2::units((h + 1) as nat)
}

/// The score of a candidate with hash `raw`.
pub open spec fn score(raw: u64, weight_milli: u32) -> int {
    let w = if weight_milli < 1 {
        1int
    } else {
        weight_milli as int
    };
    w * 0x1_0000_0000_0000_0000 / (neg_log2(raw) + 1)
}

/// The 128-bit id of which `hi` and `lo` are the halves.
pub open spec fn join_id(hi: u64, lo: u64) -> u128 {
    (hi * 0x1_0000_0000_0000_0000 + lo) as u128
}

pub proof fn lemma_floor_log2_is(x: nat, e: nat)
    requires
        pow2(e) <= x < pow2(e + 1),
    ensures
        floor_log2(x) == e,
    decreases e,
{
    if e == 0 {
        lemma2_to64();
    } else {
        lemma_pow2_unfold(e);
        lemma_pow2_unfold(e + 1);
        lemma_pow2_pos((e - 1) as nat);
        lemma_floor_log2_is(x / 2, (e - 1) as nat);
    }
}

pub proof fn lemma_leading_zeros(x: u64)
    requires
        x >= 1,
    ensures
        floor_log2(x as nat) == 63 - vstd::std_specs::bits::u64_leading_zeros(x),
    decreases x,
{
    reveal(vstd::std_specs::bits::u64_leading_zeros);
    if x >= 2 {
        lemma_leading_zeros(x / 2);
    } else {
        assert(vstd::std_specs::bits::u64_leading_zeros(0) == 64);
    }
}

pub proof fn lemma_floor_log2_bounds(x: nat)
    requires
        x >= 1,
    ensures
        pow2(floor_log2(x)) <= x < pow2(floor_log2(x) + 1),
    decreases x,
{
    if x < 2 {
        lemma2_to64();
    } else {
        lemma_floor_log2_bounds(x / 2);
        lemma_pow2_unfold(floor_log2(x));
        lemma_pow2_unfold(floor_log2(x) + 1);
    }
}

/// The logarithm lies between 0, for the largest hash, and 64.
pub proof fn neg_log2_range(h: u64)
    ensures
        0 <= neg_log2(h) <= 64 * 0x1_0000,
        h == u64::MAX ==> neg_log2(h) == 0,
        h < u64::MAX ==> neg_log2(h) >= 1,
        h == 0 ==> neg_log2(h) == 64 * 0x1_0000,
{
    lemma2_to64();
    lemma2_to64_rest();
    let x = (h + 1) as nat;
    log2::lemma_units_of_power(64);
    log2::lemma_units_of_power(0);
    if h < u64::MAX {
        log2::lemma_units_below(x, 64);
    }
}

/// Powers of two have whole logarithms: `h + 1 == 2^e` gives `64 - e` exactly.
pub proof fn neg_log2_of_power(e: nat, h: u64)
    requires
        h + 1 == pow2(e),
    ensures
        neg_log2(h) == (64 - e) * 0x1_0000,
{
    log2::lemma_units_of_power(e);
}

/// `-log2((h + 1) / 2^64)` with 16 fractional bits, exact to the last bit.
pub fn neg_log2_q16(h: u64) -> (l: u64)
    ensures
        l == neg_log2(h),
        ({
            let k = (64 * 0x1_0000 - l) as nat;
            l <= 64 * 0x1_0000 && pow2(k) <= pow(h + 1, 0x1_0000) < pow2(k + 1)
        }),
{
    proof {
        neg_log2_range(h);
        log2::neg_log2_is_the_logarithm(h);
    }
    if h == u64::MAX {
        return 0;
    }
    64 * 0x1_0000 - log2::log2_q16(h + 1)
}

pub proof fn lemma_pow2_le(a: nat, b: nat)
    requires
        a <= b,
    ensures
        pow2(a) <= pow2(b),
    decreases b,
{
    if a < b {
        lemma_pow2_unfold(b);
        lemma_pow2_le(a, (b - 1) as nat);
    }
}

/// The score of a candidate with hash `raw`: `weight / -log2(u)` with 64
/// fractional bits more than the weight. One unit is added to the logarithm,
/// so that it never divides by zero.
fn score_from(raw: u64, weight_milli: u32) -> (s: u128)
    ensures
        s == score(raw, weight_milli),
{
    let denom: u64 = neg_log2_q16(raw);
    proof {
        neg_log2_range(raw);
    }
    let w: u128 = if weight_milli < 1 {
        1
    } else {
        weight_milli as u128
    };
    assert(w << 64 == w * 0x1_0000_0000_0000_0000) by (bit_vector)
        requires
            w < 0x1_0000_0000,
    ;
    (w << 64) / (denom as u128 + 1)
}

fn raw_hash(disk_id_hi: u64, disk_id_lo: u64, key: u64) -> (raw: u64)
    ensures
        raw == hash::id_hash(join_id(disk_id_hi, disk_id_lo), key),
{
    let hi: u128 = disk_id_hi as u128;
    let lo: u128 = disk_id_lo as u128;
    assert((hi << 64) | lo == hi * 0x1_0000_0000_0000_0000 + lo) by (bit_vector)
        requires
            hi < 0x1_0000_0000_0000_0000,
            lo < 0x1_0000_0000_0000_0000,
    ;
    hash::hash_u128_u64((hi << 64) | lo, key)
}

/// The score of a disk for a key.
pub fn hrw_score(disk_id_hi: u64, disk_id_lo: u64, key: u64, weight_milli: u32) -> (s: u128)
    ensures
        s == score(hash::id_hash(join_id(disk_id_hi, disk_id_lo), key), weight_milli),
{
    let raw: u64 = raw_hash(disk_id_hi, disk_id_lo, key);
    score_from(raw, weight_milli)
}

/// The placement key of one chunk or extent of a file.
pub fn tartine_hash_key(inode: u64, seq: u64) -> (key: u64)
    ensures
        key == hash::id_hash(inode as u128, seq),
{
    hash::hash_u128_u64(inode as u128, seq)
}

// ---------------------------------------------------------------------
// The order of candidates

pub open spec fn raw_of(c: DiskCandidate, key: u64) -> u64 {
    hash::id_hash(join_id(c.disk_id_hi, c.disk_id_lo), key)
}

pub open spec fn score_of(c: DiskCandidate, key: u64) -> int {
    score(raw_of(c, key), c.weight_milli)
}

/// `a` ranks above `b`: by score, then by hash, then by id.
pub open spec fn better(a: DiskCandidate, b: DiskCandidate, key: u64) -> bool {
    ||| score_of(a, key) > score_of(b, key)
    ||| score_of(a, key) == score_of(b, key) && {
        ||| raw_of(a, key) > raw_of(b, key)
        ||| raw_of(a, key) == raw_of(b, key) && {
            ||| a.disk_id_hi > b.disk_id_hi
            ||| a.disk_id_hi == b.disk_id_hi && a.disk_id_lo > b.disk_id_lo
        }
    }
}

/// Candidate `i` comes before candidate `j`: it ranks above it, or neither
/// ranks above the other and it is listed first.
pub open spec fn ahead(cs: Seq<DiskCandidate>, key: u64, i: int, j: int) -> bool {
    better(cs[i], cs[j], key) || (!better(cs[j], cs[i], key) && i < j)
}

/// The order of the candidates for a key.
pub open spec fn order(cs: Seq<DiskCandidate>, key: u64) -> spec_fn(int, int) -> bool {
    |i: int, j: int| ahead(cs, key, i, j)
}

/// Which candidates may be chosen.
pub open spec fn usable(cs: Seq<DiskCandidate>) -> spec_fn(int) -> bool {
    |i: int| cs[i].active != 0
}

/// `sel` lists, best first, the best `want` active candidates, or all of them
/// where there are fewer.
pub open spec fn is_selection(
    cs: Seq<DiskCandidate>,
    key: u64,
    want: nat,
    sel: Seq<int>,
) -> bool {
    top::is_top(order(cs, key), usable(cs), cs.len(), want, sel)
}

pub proof fn lemma_order_strict(cs: Seq<DiskCandidate>, key: u64)
    ensures
        top::strict_total(order(cs, key)),
{
    let lt = order(cs, key);
    assert forall|a: int, b: int, c: int| #[trigger] lt(a, b) && #[trigger] lt(b, c) implies lt(
        a,
        c,
    ) by {}
}

/// One scored candidate during selection.
#[derive(Clone, Copy)]
struct Ranked {
    score: u128,
    raw: u64,
    id_hi: u64,
    id_lo: u64,
    idx: u32,
}

#[verifier::opaque]
spec fn ranks(r: Ranked, cs: Seq<DiskCandidate>, key: u64, i: int) -> bool {
    &&& r.score == score_of(cs[i], key)
    &&& r.raw == raw_of(cs[i], key)
    &&& r.id_hi == cs[i].disk_id_hi
    &&& r.id_lo == cs[i].disk_id_lo
    &&& r.idx == i
}

spec fn above(a: Ranked, b: Ranked) -> bool {
    ||| a.score > b.score
    ||| a.score == b.score && {
        ||| a.raw > b.raw
        ||| a.raw == b.raw && {
            ||| a.id_hi > b.id_hi
            ||| a.id_hi == b.id_hi && a.id_lo > b.id_lo
        }
    }
}

fn beats(a: &Ranked, b: &Ranked) -> (r: bool)
    ensures
        r == above(*a, *b),
{
    if a.score != b.score {
        a.score > b.score
    } else if a.raw != b.raw {
        a.raw > b.raw
    } else if a.id_hi != b.id_hi {
        a.id_hi > b.id_hi
    } else {
        a.id_lo > b.id_lo
    }
}

fn rank(c: &DiskCandidate, key: u64, idx: u32) -> (r: Ranked)
    ensures
        r.score == score_of(*c, key),
        r.raw == raw_of(*c, key),
        r.id_hi == c.disk_id_hi,
        r.id_lo == c.disk_id_lo,
        r.idx == idx,
{
    let raw: u64 = raw_hash(c.disk_id_hi, c.disk_id_lo, key);
    Ranked {
        score: score_from(raw, c.weight_milli),
        raw,
        id_hi: c.disk_id_hi,
        id_lo: c.disk_id_lo,
        idx,
    }
}

/// Puts `entry` behind every one of the first `end` entries that it does not
/// beat, counted from the back, and moves the others up by one.
fn insert_ranked(top: &mut [Ranked; 16], end: usize, entry: Ranked) -> (pos: usize)
    requires
        end < 16,
    ensures
        pos <= end,
        final(top)@.take(end + 1) == old(top)@.take(end as int).insert(pos as int, entry),
        forall|k: int| pos <= k < end ==> above(entry, #[trigger] old(top)@[k]),
        pos > 0 ==> !above(entry, old(top)@[pos - 1]),
{
    let ghost before = top@;
    let mut pos: usize = end;
    while pos > 0 && beats(&entry, &top[pos - 1])
        invariant
            pos <= end < 16,
            before.len() == 16,
            top@.len() == 16,
            forall|k: int| 0 <= k < pos ==> #[trigger] top@[k] == before[k],
            forall|k: int| pos < k <= end ==> #[trigger] top@[k] == before[k - 1],
            forall|k: int| pos <= k < end ==> above(entry, #[trigger] before[k]),
        decreases pos,
    {
        top[pos] = top[pos - 1];
        pos = pos - 1;
    }
    top[pos] = entry;
    assert(top@.take(end + 1) =~= before.take(end as int).insert(pos as int, entry));
    pos
}

proof fn lemma_ranks_order(
    a: Ranked,
    b: Ranked,
    cs: Seq<DiskCandidate>,
    key: u64,
    i: int,
    j: int,
)
    requires
        ranks(a, cs, key, i),
        ranks(b, cs, key, j),
        j < i,
    ensures
        above(a, b) == order(cs, key)(i, j),
        !above(a, b) == order(cs, key)(j, i),
{
    reveal(ranks);
}

/// Writes to `out` the indices of the best active candidates for `key`, best
/// first: as many as `out` holds, at most `MAX_SELECT`, or all of them where
/// there are fewer. Returns how many were written.
pub fn hrw_select(candidates: &[DiskCandidate], key: u64, out: &mut [u32]) -> (filled: usize)
    requires
        candidates@.len() <= 0x1_0000_0000,
    ensures
        filled <= old(out)@.len(),
        final(out)@.len() == old(out)@.len(),
        is_selection(
            candidates@,
            key,
            capped(old(out)@.len()),
            Seq::new(filled as nat, |i: int| final(out)@[i] as int),
        ),
        forall|i: int|
            filled <= i < old(out)@.len() ==> #[trigger] final(out)@[i] == old(out)@[i],
{
    let want: usize = if out.len() < MAX_SELECT {
        out.len()
    } else {
        MAX_SELECT
    };
    let ghost cs = candidates@;
    let ghost start = out@;
    let ghost lt = order(cs, key);
    let ghost ok = usable(cs);
    let mut sel: Ghost<Seq<int>> = Ghost(Seq::empty());
    if want == 0 {
        assert(Seq::new(0, |i: int| out@[i] as int) =~= Seq::<int>::empty());
        return 0;
    }
    let zero = Ranked { score: 0, raw: 0, id_hi: 0, id_lo: 0, idx: 0 };
    let mut top: [Ranked; 16] = [zero; 16];
    let mut filled: usize = 0;
    let mut idx: usize = 0;
    proof {
        lemma_order_strict(cs, key);
    }
    while idx < candidates.len()
        invariant
            cs == candidates@,
            cs.len() <= 0x1_0000_0000,
            lt == order(cs, key),
            ok == usable(cs),
            top::strict_total(lt),
            idx <= cs.len(),
            0 < want <= 16,
            filled == sel@.len(),
            filled <= want,
            top::is_top(lt, ok, idx as nat, want as nat, sel@),
            forall|i: int| 0 <= i < filled ==> ranks(#[trigger] top@[i], cs, key, sel@[i]),
        decreases cs.len() - idx,
    {
        let c = &candidates[idx];
        if c.active != 0 {
            let entry = rank(c, key, idx as u32);
            let ghost before = top@;
            let ghost n = idx as int;
            proof {
                reveal(ranks);
                assert(ranks(entry, cs, key, n));
                assert(ok(n));
            }
            if filled < want {
                let pos: usize = insert_ranked(&mut top, filled, entry);
                proof {
                    sel@ = insert_step(cs, key, want as nat, sel@, n, before, top@, filled as int, pos as int, entry);
                }
                filled = filled + 1;
            } else if beats(&entry, &top[want - 1]) {
                let pos: usize = insert_ranked(&mut top, want - 1, entry);
                proof {
                    sel@ = insert_step(cs, key, want as nat, sel@, n, before, top@, want - 1, pos as int, entry);
                }
            } else {
                proof {
                    lemma_ranks_order(entry, before[want - 1], cs, key, n, sel@[want - 1]);
                }
            }
        } else {
            assert(!ok(idx as int));
        }
        idx = idx + 1;
    }
    let mut i: usize = 0;
    while i < filled
        invariant
            i <= filled,
            filled <= out@.len(),
            filled <= 16,
            filled == sel@.len(),
            out@.len() == start.len(),
            forall|k: int| 0 <= k < filled ==> ranks(#[trigger] top@[k], cs, key, sel@[k]),
            forall|k: int| 0 <= k < i ==> #[trigger] out@[k] == sel@[k],
            forall|k: int| i <= k < out@.len() ==> #[trigger] out@[k] == start[k],
        decreases filled - i,
    {
        assert(top@[i as int].idx == sel@[i as int]) by {
            reveal(ranks);
            assert(ranks(top@[i as int], cs, key, sel@[i as int]));
        }
        out[i] = top[i].idx;
        i = i + 1;
    }
    assert(Seq::new(filled as nat, |i: int| out@[i] as int) =~= sel@);
    filled
}

/// One candidate more is ranked: what `insert_ranked` did to the entries is
/// what becomes of the selection.
proof fn insert_step(
    cs: Seq<DiskCandidate>,
    key: u64,
    want: nat,
    sel: Seq<int>,
    n: int,
    before: Seq<Ranked>,
    after: Seq<Ranked>,
    end: int,
    pos: int,
    entry: Ranked,
) -> (next: Seq<int>)
    requires
        top::strict_total(order(cs, key)),
        0 <= n,
        0 < want <= 16,
        before.len() == 16,
        after.len() == 16,
        usable(cs)(n),
        top::is_top(order(cs, key), usable(cs), n as nat, want, sel),
        sel.len() == want ==> end == want - 1 && above(entry, before[want - 1]),
        sel.len() < want ==> end == sel.len(),
        0 <= pos <= end,
        ranks(entry, cs, key, n),
        forall|i: int| 0 <= i < sel.len() ==> ranks(#[trigger] before[i], cs, key, sel[i]),
        after.take(end + 1) == before.take(end).insert(pos, entry),
        forall|k: int| pos <= k < end ==> above(entry, #[trigger] before[k]),
        pos > 0 ==> !above(entry, before[pos - 1]),
    ensures
        top::is_top(order(cs, key), usable(cs), (n + 1) as nat, want, next),
        next.len() == end + 1,
        forall|i: int| 0 <= i < next.len() ==> ranks(#[trigger] after[i], cs, key, next[i]),
{
    let lt = order(cs, key);
    let full = sel.insert(pos, n);
    let next = full.take(end + 1);
    if pos > 0 {
        lemma_ranks_order(entry, before[pos - 1], cs, key, n, sel[pos - 1]);
    }
    if pos < sel.len() {
        lemma_ranks_order(entry, before[pos], cs, key, n, sel[pos]);
    }
    top::lemma_top_insert(lt, usable(cs), n as nat, want, sel, pos, next);
    assert forall|i: int| 0 <= i < next.len() implies ranks(
        #[trigger] after[i],
        cs,
        key,
        next[i],
    ) by {
        assert(after.take(end + 1)[i] == after[i]);
        if i > pos {
            assert(ranks(before[i - 1], cs, key, sel[i - 1]));
        } else if i < pos {
            assert(ranks(before[i], cs, key, sel[i]));
        }
    }
    next
}

// ---------------------------------------------------------------------
// One disk per slot

/// The candidate meets the slot's constraint: it is the disk that a pinned
/// slot names, or of the class that any other slot asks for.
pub open spec fn fits(slot: ReplicaSlotSpec, c: DiskCandidate) -> bool {
    if slot.pinned != 0 {
        c.disk_id_hi == slot.pinned_id_hi && c.disk_id_lo == slot.pinned_id_lo
    } else {
        slot.required_class == CLASS_ANY || c.class == slot.required_class
    }
}

/// Candidate `i` may be chosen for the slot: it is active, meets the
/// constraint and is not taken by an earlier slot.
pub open spec fn eligible(
    cs: Seq<DiskCandidate>,
    slot: ReplicaSlotSpec,
    taken: Seq<Option<int>>,
    i: int,
) -> bool {
    &&& 0 <= i < cs.len()
    &&& cs[i].active != 0
    &&& fits(slot, cs[i])
    &&& !taken.contains(Some(i))
}

/// `pick` is the first of the eligible candidates, or `None` where there is
/// none.
pub open spec fn is_pick(
    cs: Seq<DiskCandidate>,
    key: u64,
    slot: ReplicaSlotSpec,
    taken: Seq<Option<int>>,
    pick: Option<int>,
) -> bool {
    match pick {
        Some(i) => eligible(cs, slot, taken, i) && forall|j: int| #[trigger]
            eligible(cs, slot, taken, j) && j != i ==> ahead(cs, key, i, j),
        None => forall|j: int| !#[trigger] eligible(cs, slot, taken, j),
    }
}

/// `placed` gives each of the first slots its candidate, in order.
pub open spec fn is_placement(
    cs: Seq<DiskCandidate>,
    key: u64,
    slots: Seq<ReplicaSlotSpec>,
    placed: Seq<Option<int>>,
) -> bool {
    &&& placed.len() <= slots.len()
    &&& forall|k: int|
        0 <= k < placed.len() ==> is_pick(
            cs,
            key,
            slots[k],
            placed.take(k),
            #[trigger] placed[k],
        )
}

/// What an entry of the output stands for.
pub open spec fn choice(x: u32) -> Option<int> {
    if x == UNPLACED {
        None
    } else {
        Some(x as int)
    }
}

/// What the first `n` entries of the output stand for.
pub open spec fn choices(out: Seq<u32>, n: nat) -> Seq<Option<int>> {
    Seq::new(n, |i: int| choice(out[i]))
}

fn is_taken(out: &[u32], n: usize, idx: u32) -> (r: bool)
    requires
        n <= out@.len(),
        idx != UNPLACED,
    ensures
        r == choices(out@, n as nat).contains(Some(idx as int)),
{
    let mut i: usize = 0;
    while i < n
        invariant
            i <= n <= out@.len(),
            idx != UNPLACED,
            forall|k: int| 0 <= k < i ==> out@[k] != idx,
        decreases n - i,
    {
        if out[i] == idx {
            assert(choices(out@, n as nat)[i as int] == Some(idx as int));
            return true;
        }
        i = i + 1;
    }
    assert forall|k: int| 0 <= k < n implies #[trigger] choices(out@, n as nat)[k] != Some(
        idx as int,
    ) by {
        assert(out@[k] != idx);
    }
    false
}

/// The entry for one slot, the first `n` entries of `out` being taken.
fn pick_slot(
    candidates: &[DiskCandidate],
    key: u64,
    slot: &ReplicaSlotSpec,
    out: &[u32],
    n: usize,
) -> (x: u32)
    requires
        candidates@.len() <= u32::MAX,
        n <= out@.len(),
    ensures
        is_pick(candidates@, key, *slot, choices(out@, n as nat), choice(x)),
{
    let ghost cs = candidates@;
    let ghost taken = choices(out@, n as nat);
    let mut best: Option<Ranked> = None;
    let mut idx: usize = 0;
    while idx < candidates.len()
        invariant
            cs == candidates@,
            cs.len() <= u32::MAX,
            n <= out@.len(),
            taken == choices(out@, n as nat),
            idx <= cs.len(),
            match best {
                Some(b) => {
                    &&& b.idx < idx
                    &&& ranks(b, cs, key, b.idx as int)
                    &&& eligible(cs, *slot, taken, b.idx as int)
                    &&& forall|j: int|
                        #[trigger] eligible(cs, *slot, taken, j) && j < idx && j != b.idx
                            ==> order(cs, key)(b.idx as int, j)
                },
                None => forall|j: int| #[trigger] eligible(cs, *slot, taken, j) ==> j >= idx,
            },
        decreases cs.len() - idx,
    {
        let c = &candidates[idx];
        let fit: bool = if slot.pinned != 0 {
            c.disk_id_hi == slot.pinned_id_hi && c.disk_id_lo == slot.pinned_id_lo
        } else {
            slot.required_class == CLASS_ANY || c.class == slot.required_class
        };
        let ghost n0 = idx as int;
        if c.active != 0 && fit && !is_taken(out, n, idx as u32) {
            assert(eligible(cs, *slot, taken, n0));
            let entry = rank(c, key, idx as u32);
            assert(ranks(entry, cs, key, n0)) by {
                reveal(ranks);
            }
            match best {
                Some(b) => {
                    proof {
                        lemma_ranks_order(entry, b, cs, key, n0, b.idx as int);
                        lemma_order_strict(cs, key);
                    }
                    if beats(&entry, &b) {
                        best = Some(entry);
                    }
                },
                None => {
                    best = Some(entry);
                },
            }
        } else {
            assert(!eligible(cs, *slot, taken, n0));
        }
        idx = idx + 1;
    }
    match best {
        Some(b) => {
            assert forall|j: int| #[trigger] eligible(cs, *slot, taken, j) && j != b.idx implies ahead(
                cs,
                key,
                b.idx as int,
                j,
            ) by {
                assert(order(cs, key)(b.idx as int, j));
            }
            b.idx
        },
        None => UNPLACED,
    }
}

/// Places each slot in turn, never on a disk that an earlier slot took, and
/// writes to `out` the index of its candidate, or `UNPLACED`. Returns how many
/// slots were looked at: all of them, or as many as `out` holds, at most
/// `MAX_SELECT`.
pub fn place_redundancy(
    candidates: &[DiskCandidate],
    key: u64,
    slots: &[ReplicaSlotSpec],
    out: &mut [u32],
) -> (n: usize)
    requires
        candidates@.len() <= u32::MAX,
    ensures
        n <= slots@.len(),
        n <= old(out)@.len(),
        n <= MAX_SELECT,
        n == slots@.len() || n == old(out)@.len() || n == MAX_SELECT,
        final(out)@.len() == old(out)@.len(),
        is_placement(candidates@, key, slots@, choices(final(out)@, n as nat)),
        forall|i: int| n <= i < old(out)@.len() ==> #[trigger] final(out)@[i] == old(out)@[i],
{
    let mut n: usize = if slots.len() < out.len() {
        slots.len()
    } else {
        out.len()
    };
    if n > MAX_SELECT {
        n = MAX_SELECT;
    }
    let ghost start = out@;
    let mut k: usize = 0;
    while k < n
        invariant
            candidates@.len() <= u32::MAX,
            k <= n,
            n <= slots@.len(),
            n <= out@.len(),
            out@.len() == start.len(),
            is_placement(candidates@, key, slots@, choices(out@, k as nat)),
            forall|i: int| k <= i < out@.len() ==> #[trigger] out@[i] == start[i],
        decreases n - k,
    {
        let x: u32 = pick_slot(candidates, key, &slots[k], out, k);
        let ghost before = choices(out@, k as nat);
        out[k] = x;
        proof {
            let after = choices(out@, (k + 1) as nat);
            assert(after =~= before.push(choice(x)));
            assert forall|i: int| 0 <= i < after.len() implies is_pick(
                candidates@,
                key,
                slots@[i],
                after.take(i),
                #[trigger] after[i],
            ) by {
                if i < k {
                    assert(after.take(i) =~= before.take(i));
                    assert(before[i] == after[i]);
                } else {
                    assert(after.take(i) =~= before);
                }
            }
        }
        k = k + 1;
    }
    n
}

// ---------------------------------------------------------------------
// Laws

/// The choice is determined by the candidates, the key and the number wanted.
pub proof fn selection_unique(
    cs: Seq<DiskCandidate>,
    key: u64,
    want: nat,
    a: Seq<int>,
    b: Seq<int>,
)
    requires
        is_selection(cs, key, want, a),
        is_selection(cs, key, want, b),
    ensures
        a == b,
{
    lemma_order_strict(cs, key);
    top::lemma_top_unique(order(cs, key), usable(cs), cs.len(), want, a, b);
}

/// No disk is chosen twice.
pub proof fn selection_distinct(cs: Seq<DiskCandidate>, key: u64, want: nat, sel: Seq<int>)
    requires
        is_selection(cs, key, want, sel),
    ensures
        sel.no_duplicates(),
{
    lemma_order_strict(cs, key);
    let lt = order(cs, key);
    assert forall|i: int, j: int| 0 <= i < sel.len() && 0 <= j < sel.len() && i != j implies sel[i]
        != sel[j] by {
        if i < j {
            assert(lt(sel[i], sel[j]));
        } else {
            assert(lt(sel[j], sel[i]));
        }
    }
}

/// As many disks are chosen as are wanted, where there are as many active
/// ones, and all the active ones otherwise.
pub proof fn selection_complete(cs: Seq<DiskCandidate>, key: u64, want: nat, sel: Seq<int>)
    requires
        is_selection(cs, key, want, sel),
        sel.len() < want,
    ensures
        forall|k: int|
            #![trigger cs[k]]
            0 <= k < cs.len() && cs[k].active != 0 ==> sel.contains(k),
{
    assert forall|k: int|
        #![trigger cs[k]]
        0 <= k < cs.len() && cs[k].active != 0 implies sel.contains(k) by {
        assert(usable(cs)(k));
    }
}

/// One disk more disturbs a choice only by entering it: where the new disk is
/// not chosen the choice stays as it was, and where it is, the others keep
/// their order and only the last one can drop out.
pub proof fn adding_a_disk_moves_only_to_it(
    cs: Seq<DiskCandidate>,
    c: DiskCandidate,
    key: u64,
    want: nat,
    before: Seq<int>,
    after: Seq<int>,
)
    requires
        is_selection(cs, key, want, before),
        is_selection(cs.push(c), key, want, after),
    ensures
        after.len() <= before.len() + 1,
        !after.contains(cs.len() as int) ==> after == before,
        forall|p: int|
            0 <= p < after.len() && #[trigger] after[p] == cs.len() ==> {
                &&& p <= before.len()
                &&& after == before.insert(p, cs.len() as int).take(after.len() as int)
                &&& after.len() >= before.len()
            },
{
    let more = cs.push(c);
    let n = cs.len() as int;
    lemma_order_strict(cs, key);
    lemma_order_strict(more, key);
    let lt = order(more, key);
    let ok = usable(more);
    assert forall|i: int, j: int| 0 <= i < n && 0 <= j < n implies #[trigger] lt(i, j) == order(
        cs,
        key,
    )(i, j) by {
        assert(more[i] == cs[i] && more[j] == cs[j]);
    }
    assert forall|i: int| 0 <= i < n implies #[trigger] ok(i) == usable(cs)(i) by {
        assert(more[i] == cs[i]);
    }
    assert(top::is_top(lt, ok, cs.len(), want, before)) by {
        assert forall|k: int|
            0 <= k < n && #[trigger] ok(k) && !before.contains(k) implies before.len() == want && (
        want > 0 ==> lt(before[want - 1], k)) by {
            assert(usable(cs)(k));
            if want > 0 {
                assert(0 <= before[want - 1] < n);
            }
        }
        assert forall|i: int, j: int| 0 <= i < j < before.len() implies lt(
            #[trigger] before[i],
            #[trigger] before[j],
        ) by {
            assert(order(cs, key)(before[i], before[j]));
        }
    }
    assert(more[n] == c);
    let enters = want > 0 && ok(n) && (before.len() < want || lt(n, before[want - 1]));
    if enters {
        let pos = entry_point(lt, before, n);
        let pos = if pos < want {
            pos
        } else {
            want - 1
        };
        let full = before.insert(pos, n);
        let next = full.take(
            if before.len() < want {
                before.len() as int + 1
            } else {
                want as int
            },
        );
        top::lemma_top_insert(lt, ok, cs.len(), want, before, pos, next);
        top::lemma_top_unique(lt, ok, more.len(), want, after, next);
        assert(next[pos] == n);
        selection_distinct(more, key, want, after);
    } else {
        assert(top::is_top(lt, ok, more.len(), want, before)) by {
            assert forall|k: int|
                0 <= k < n + 1 && #[trigger] ok(k) && !before.contains(k) implies before.len()
                == want && (want > 0 ==> lt(before[want - 1], k)) by {
                if k == n && want > 0 {
                    assert(before[want - 1] != n);
                }
            }
        }
        top::lemma_top_unique(lt, ok, more.len(), want, after, before);
    }
}

/// Where a new entry goes in an ordered list.
proof fn entry_point(lt: spec_fn(int, int) -> bool, sel: Seq<int>, n: int) -> (pos: int)
    requires
        top::strict_total(lt),
        forall|i: int| 0 <= i < sel.len() ==> #[trigger] sel[i] != n,
        forall|i: int, j: int|
            0 <= i < j < sel.len() ==> lt(#[trigger] sel[i], #[trigger] sel[j]),
    ensures
        0 <= pos <= sel.len(),
        pos > 0 ==> lt(sel[pos - 1], n),
        pos < sel.len() ==> lt(n, sel[pos]),
    decreases sel.len(),
{
    if sel.len() == 0 || lt(sel.last(), n) {
        sel.len() as int
    } else {
        let pos = entry_point(lt, sel.drop_last(), n);
        assert(lt(n, sel.last()));
        pos
    }
}

/// The order in which the candidates are listed does not matter, as long as
/// no two that may be chosen have the same id.
pub proof fn selection_order_independent(
    cs: Seq<DiskCandidate>,
    ds: Seq<DiskCandidate>,
    key: u64,
    want: nat,
    a: Seq<int>,
    b: Seq<int>,
)
    requires
        is_selection(cs, key, want, a),
        is_selection(ds, key, want, b),
        distinct_active(cs),
        distinct_active(ds),
        forall|i: int| 0 <= i < cs.len() ==> ds.contains(#[trigger] cs[i]),
        forall|i: int| 0 <= i < ds.len() ==> cs.contains(#[trigger] ds[i]),
    ensures
        a.map_values(|i: int| cs[i]) == b.map_values(|i: int| ds[i]),
{
    let lt = order(ds, key);
    let ok = usable(ds);
    let image = a.map_values(|i: int| ds.index_of(cs[i]));
    lemma_order_strict(ds, key);
    assert forall|i: int| 0 <= i < a.len() implies 0 <= #[trigger] image[i] < ds.len() && ds[image[i]]
        == cs[a[i]] by {
        assert(ds.contains(cs[a[i]]));
    }
    assert(top::is_top(lt, ok, ds.len(), want, image)) by {
        assert forall|i: int| 0 <= i < image.len() implies 0 <= #[trigger] image[i] < ds.len()
            && ok(image[i]) by {
            assert(usable(cs)(a[i]));
        }
        assert forall|i: int, j: int| 0 <= i < j < image.len() implies lt(
            #[trigger] image[i],
            #[trigger] image[j],
        ) by {
            assert(order(cs, key)(a[i], a[j]));
            assert(usable(cs)(a[i]) && usable(cs)(a[j]));
        }
        assert forall|k: int|
            0 <= k < ds.len() && #[trigger] ok(k) && !image.contains(k) implies image.len() == want
            && (want > 0 ==> lt(image[want - 1], k)) by {
            assert(cs.contains(ds[k]));
            let m = cs.index_of(ds[k]);
            assert(usable(cs)(m));
            if a.contains(m) {
                let i = a.index_of(m);
                assert(ds[image[i]] == ds[k]);
                assert(image[i] == k);
            }
            if want > 0 {
                lemma_order_strict(cs, key);
                assert(order(cs, key)(a[want - 1], m));
                assert(usable(cs)(a[want - 1]));
                assert(ds[image[want - 1]] == cs[a[want - 1]]);
            }
        }
    }
    top::lemma_top_unique(lt, ok, ds.len(), want, image, b);
    assert(a.map_values(|i: int| cs[i]) =~= b.map_values(|i: int| ds[i]));
}

/// No two candidates have the same id.
pub open spec fn distinct_ids(cs: Seq<DiskCandidate>) -> bool {
    forall|i: int, j: int|
        #![trigger cs[i], cs[j]]
        0 <= i < cs.len() && 0 <= j < cs.len() && i != j ==> cs[i].disk_id_hi != cs[j].disk_id_hi
            || cs[i].disk_id_lo != cs[j].disk_id_lo
}

/// No two candidates that may be chosen have the same id.
pub open spec fn distinct_active(cs: Seq<DiskCandidate>) -> bool {
    forall|i: int, j: int|
        #![trigger cs[i], cs[j]]
        0 <= i < cs.len() && 0 <= j < cs.len() && i != j && cs[i].active != 0 && cs[j].active != 0
            ==> cs[i].disk_id_hi != cs[j].disk_id_hi || cs[i].disk_id_lo != cs[j].disk_id_lo
}

pub proof fn lemma_distinct_better(cs: Seq<DiskCandidate>, key: u64, i: int, j: int)
    requires
        distinct_ids(cs),
        0 <= i < cs.len(),
        0 <= j < cs.len(),
        i != j,
        ahead(cs, key, i, j),
    ensures
        better(cs[i], cs[j], key),
{
}

/// Slots that ask for nothing in particular are placed as the same number of
/// disks is selected: best first, and the slots past the last disk stay
/// unplaced.
pub proof fn uniform_slots_place_as_selected(
    cs: Seq<DiskCandidate>,
    key: u64,
    slots: Seq<ReplicaSlotSpec>,
    placed: Seq<Option<int>>,
    sel: Seq<int>,
)
    requires
        is_placement(cs, key, slots, placed),
        is_selection(cs, key, placed.len(), sel),
        forall|k: int|
            0 <= k < slots.len() ==> (#[trigger] slots[k]).pinned == 0 && slots[k].required_class
                == CLASS_ANY,
    ensures
        forall|k: int|
            0 <= k < placed.len() ==> #[trigger] placed[k] == (if k < sel.len() {
                Some(sel[k])
            } else {
                None
            }),
{
    lemma_uniform(cs, key, slots, placed, sel, placed.len());
}

proof fn lemma_uniform(
    cs: Seq<DiskCandidate>,
    key: u64,
    slots: Seq<ReplicaSlotSpec>,
    placed: Seq<Option<int>>,
    sel: Seq<int>,
    m: nat,
)
    requires
        is_placement(cs, key, slots, placed),
        is_selection(cs, key, placed.len(), sel),
        m <= placed.len(),
        forall|k: int|
            0 <= k < slots.len() ==> (#[trigger] slots[k]).pinned == 0 && slots[k].required_class
                == CLASS_ANY,
    ensures
        forall|k: int|
            0 <= k < m ==> #[trigger] placed[k] == (if k < sel.len() {
                Some(sel[k])
            } else {
                None
            }),
    decreases m,
{
    if m > 0 {
        let p = m - 1;
        lemma_uniform(cs, key, slots, placed, sel, p as nat);
        lemma_order_strict(cs, key);
        let lt = order(cs, key);
        let ok = usable(cs);
        let taken = placed.take(p);
        let slot = slots[p];
        assert(is_pick(cs, key, slot, taken, placed[p]));
        assert forall|i: int| 0 <= i < cs.len() && ok(i) implies #[trigger] eligible(
            cs,
            slot,
            taken,
            i,
        ) == !sel.take(if p < sel.len() {
            p
        } else {
            sel.len() as int
        }).contains(i) by {
            let head = sel.take(if p < sel.len() {
                p
            } else {
                sel.len() as int
            });
            if taken.contains(Some(i)) {
                let k = taken.index_of(Some(i));
                assert(placed[k] == Some(i));
                assert(head[k] == i);
            }
            if head.contains(i) {
                let k = head.index_of(i);
                assert(placed[k] == Some(i));
                assert(taken[k] == Some(i));
            }
        }
        if p < sel.len() {
            let want = sel[p];
            assert(ok(want));
            assert(!sel.take(p).contains(want)) by {
                if sel.take(p).contains(want) {
                    let k = sel.take(p).index_of(want);
                    assert(lt(sel[k], sel[p]));
                }
            }
            assert(eligible(cs, slot, taken, want));
            assert(placed[p] is Some);
            let got = placed[p]->Some_0;
            if got != want {
                assert(ok(got));
                top::lemma_top_next(lt, ok, cs.len(), placed.len(), sel, p, got);
                assert(lt(got, want));
            }
        } else {
            assert(sel.take(sel.len() as int) =~= sel);
            if placed[p] is Some {
                let got = placed[p]->Some_0;
                assert(ok(got));
            }
        }
    }
}

/// No disk takes two slots.
pub proof fn placement_distinct(
    cs: Seq<DiskCandidate>,
    key: u64,
    slots: Seq<ReplicaSlotSpec>,
    placed: Seq<Option<int>>,
    i: int,
    j: int,
)
    requires
        is_placement(cs, key, slots, placed),
        0 <= i < j < placed.len(),
        placed[i] is Some,
    ensures
        placed[i] != placed[j],
{
    assert(is_pick(cs, key, slots[j], placed.take(j), placed[j]));
    assert(placed.take(j)[i] == placed[i]);
}

/// The placement is determined by the candidates, the key and the slots.
pub proof fn placement_unique(
    cs: Seq<DiskCandidate>,
    key: u64,
    slots: Seq<ReplicaSlotSpec>,
    a: Seq<Option<int>>,
    b: Seq<Option<int>>,
)
    requires
        is_placement(cs, key, slots, a),
        is_placement(cs, key, slots, b),
        a.len() == b.len(),
    ensures
        a == b,
    decreases a.len(),
{
    if a.len() > 0 {
        let p = a.len() - 1;
        let a0 = a.drop_last();
        let b0 = b.drop_last();
        assert forall|k: int| 0 <= k < p implies is_pick(
            cs,
            key,
            slots[k],
            a0.take(k),
            #[trigger] a0[k],
        ) by {
            assert(a0.take(k) =~= a.take(k));
            assert(a[k] == a0[k]);
        }
        assert forall|k: int| 0 <= k < p implies is_pick(
            cs,
            key,
            slots[k],
            b0.take(k),
            #[trigger] b0[k],
        ) by {
            assert(b0.take(k) =~= b.take(k));
            assert(b[k] == b0[k]);
        }
        placement_unique(cs, key, slots, a0, b0);
        assert(a.take(p) =~= a0);
        assert(b.take(p) =~= b0);
        assert(is_pick(cs, key, slots[p], a0, a[p]));
        assert(is_pick(cs, key, slots[p], a0, b[p]));
        lemma_order_strict(cs, key);
        let lt = order(cs, key);
        if a[p] is Some && b[p] is Some && a[p] != b[p] {
            assert(lt(a[p]->Some_0, b[p]->Some_0));
            assert(lt(b[p]->Some_0, a[p]->Some_0));
        }
        assert(a =~= a0.push(a[p]));
        assert(b =~= b0.push(b[p]));
    } else {
        assert(a =~= b);
    }
}

/// At most sixteen are chosen, and otherwise as many as are asked for.
pub proof fn at_most_sixteen_are_chosen(n: nat)
    ensures
        n <= 16 ==> capped(n) == n,
        n > 16 ==> capped(n) == 16,
{
}

/// A score is the weight over the logarithm, rounded down; a weight of nothing
/// counts as the least one.
pub proof fn a_score_is_weight_over_logarithm(raw: u64, weight_milli: u32)
    ensures
        ({
            let d = neg_log2(raw) + 1;
            let w = if weight_milli == 0 {
                1int
            } else {
                weight_milli as int
            };
            &&& d >= 1
            &&& score(raw, weight_milli) >= 0
            &&& score(raw, weight_milli) * d <= w * 0x1_0000_0000_0000_0000
            &&& w * 0x1_0000_0000_0000_0000 < (score(raw, weight_milli) + 1) * d
        }),
{
    neg_log2_range(raw);
    let d = neg_log2(raw) + 1;
    let w = if weight_milli == 0 {
        1int
    } else {
        weight_milli as int
    };
    let x = w * 0x1_0000_0000_0000_0000;
    vstd::arithmetic::div_mod::lemma_fundamental_div_mod(x, d);
    vstd::arithmetic::div_mod::lemma_mod_bound(x, d);
    let q = x / d;
    assert(q * d == d * q) by (nonlinear_arith);
    assert((q + 1) * d == q * d + d) by (nonlinear_arith);
    vstd::arithmetic::div_mod::lemma_div_pos_is_pos(x, d);
}

/// The candidates that are chosen are active and score at least as high as every
/// active one that is not, and they come highest first.
pub proof fn the_highest_scores_are_chosen(
    cs: Seq<DiskCandidate>,
    key: u64,
    want: nat,
    sel: Seq<int>,
    i: int,
    other: int,
)
    requires
        is_selection(cs, key, want, sel),
        0 <= i < sel.len(),
        0 <= other < cs.len(),
        cs[other].active != 0,
    ensures
        0 <= sel[i] < cs.len(),
        cs[sel[i]].active != 0,
        sel.len() <= want,
        !sel.contains(other) ==> ({
            let id = |c: DiskCandidate| c.disk_id_hi * 0x1_0000_0000_0000_0000 + c.disk_id_lo;
            let s = |c: DiskCandidate|
                score(hash::id_hash(id(c) as u128, key), c.weight_milli);
            s(cs[sel[i]]) >= s(cs[other])
        }),
        forall|j: int|
            i < j < sel.len() ==> score_of(cs[sel[i]], key) >= score_of(
                cs[#[trigger] sel[j]],
                key,
            ),
        sel.len() < want ==> sel.contains(other),
{
    let lt = order(cs, key);
    let ok = usable(cs);
    assert(ok(other));
    assert(ok(sel[i]));
    if !sel.contains(other) {
        assert(lt(sel[want - 1], other));
        if i < want - 1 {
            assert(lt(sel[i], sel[want - 1]));
        }
    }
    assert forall|j: int| i < j < sel.len() implies score_of(cs[sel[i]], key) >= score_of(
        cs[#[trigger] sel[j]],
        key,
    ) by {
        assert(lt(sel[i], sel[j]));
    }
}

/// A slot takes the disks that meet its constraint: the one that it names, or
/// those of its class, or all of them.
pub proof fn slots_constrain_as_they_say(slot: ReplicaSlotSpec, c: DiskCandidate)
    ensures
        slot.pinned != 0 ==> (fits(slot, c) <==> c.disk_id_hi == slot.pinned_id_hi
            && c.disk_id_lo == slot.pinned_id_lo),
        slot.pinned == 0 && slot.required_class == 255 ==> fits(slot, c),
        slot.pinned == 0 && slot.required_class != 255 ==> (fits(slot, c) <==> c.class
            == slot.required_class),
{
}

/// Each slot gets an active disk that meets its constraint and that no earlier
/// slot has, and none of the others that could have been chosen scores higher. A
/// slot goes without only where there is no such disk.
pub proof fn each_slot_gets_its_best_disk(
    cs: Seq<DiskCandidate>,
    key: u64,
    slots: Seq<ReplicaSlotSpec>,
    placed: Seq<Option<int>>,
    k: int,
    other: int,
)
    requires
        is_placement(cs, key, slots, placed),
        0 <= k < placed.len(),
        0 <= other < cs.len(),
        cs[other].active != 0,
        fits(slots[k], cs[other]),
        forall|j: int| 0 <= j < k ==> #[trigger] placed[j] != Some(other),
    ensures
        placed[k] matches Some(i) && {
            &&& 0 <= i < cs.len()
            &&& cs[i].active != 0
            &&& fits(slots[k], cs[i])
            &&& score_of(cs[i], key) >= score_of(cs[other], key)
            &&& forall|j: int| 0 <= j < k ==> #[trigger] placed[j] != Some(i)
        },
{
    let taken = placed.take(k);
    assert(is_pick(cs, key, slots[k], taken, placed[k]));
    assert(!taken.contains(Some(other))) by {
        if taken.contains(Some(other)) {
            let j = taken.index_of(Some(other));
            assert(placed[j] == Some(other));
        }
    }
    assert(eligible(cs, slots[k], taken, other));
    if let Some(i) = placed[k] {
        assert forall|j: int| 0 <= j < k implies #[trigger] placed[j] != Some(i) by {
            assert(taken[j] == placed[j]);
        }
    }
}

/// An output of all ones stands for no disk, and any other for the disk at that
/// place.
pub proof fn outputs_stand_for_places(x: u32)
    ensures
        x == 0xffff_ffff <==> choice(x) is None,
        x != 0xffff_ffff ==> choice(x) == Some(x as int),
{
}

/// Of two disks with the same score the one with the higher hash comes first, and
/// of two with the same hash the one with the higher number. A disk never comes
/// before itself, and of two different ones one comes first.
pub proof fn ties_go_to_the_higher_hash(a: DiskCandidate, b: DiskCandidate, key: u64)
    ensures
        ({
            let id = |c: DiskCandidate| c.disk_id_hi * 0x1_0000_0000_0000_0000 + c.disk_id_lo;
            let h = |c: DiskCandidate| hash::id_hash(id(c) as u128, key);
            let s = |c: DiskCandidate| score(h(c), c.weight_milli);
            &&& s(a) > s(b) ==> better(a, b, key) && !better(b, a, key)
            &&& s(a) == s(b) && h(a) > h(b) ==> better(a, b, key) && !better(b, a, key)
            &&& s(a) == s(b) && h(a) == h(b) && id(a) > id(b) ==> better(a, b, key) && !better(
                b,
                a,
                key,
            )
            &&& id(a) == id(b) && s(a) == s(b) ==> !better(a, b, key)
        }),
{
}

} // verus!
