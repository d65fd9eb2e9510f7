//! The control calls of a mounted filesystem and the fixed-size byte images
//! that they carry. The command numbers follow the Linux `_IOW`/`_IOR`
//! encoding with the letter `T`; a number holds the size of its argument.

use crate::bytes;
use crate::hrw;
use crate::placement;
use crate::proto;
use crate::proto::{DiskClass, RedundancyScheme, ReplicaSlot};
use vstd::prelude::*;

verus! {

/// `_IOW('T', 1, u32)`: start the conversion of an append-only file.
pub const TARTINE_IOC_MAKE_WRITABLE: u32 = 0x4004_5401;

/// `_IOR('T', 2, state)`: the file's mode and how far its conversion is.
pub const TARTINE_IOC_GET_STATE: u32 = 0x8018_5402;

/// `_IOW('T', 3, redundancy)`: set the file's redundancy.
pub const TARTINE_IOC_SET_REDUNDANCY: u32 = 0x4190_5403;

/// `_IOR('T', 4, redundancy)`: get the file's redundancy.
pub const TARTINE_IOC_GET_REDUNDANCY: u32 = 0x8190_5404;

/// Flag of `TARTINE_IOC_MAKE_WRITABLE`: return only once the conversion is
/// complete.
pub const TARTINE_CONVERT_FLAG_WAIT: u32 = 1;

pub const TARTINE_MODE_APPEND_ONLY: u32 = 0;

pub const TARTINE_MODE_CONVERTING: u32 = 1;

pub const TARTINE_MODE_WRITABLE: u32 = 2;

pub const TARTINE_REDUNDANCY_REPLICATED: u32 = 0;

/// Reserved: it can be written down, not placed.
pub const TARTINE_REDUNDANCY_ERASURE_CODED: u32 = 1;

/// The size of a redundancy image: a header of 16 bytes and 24 for each of
/// the `MAX_SELECT` slots.
pub const REDUNDANCY_WIRE_SIZE: usize = 400;

/// What `TARTINE_IOC_GET_STATE` answers.
#[derive(Debug, Clone, Copy, PartialEq, Eq, Structural)]
pub struct TartineState {
    pub mode: u32,
    /// Padding, so that the struct has one size for every word size. Always 0.
    pub _pad: u32,
    pub bytes_total: u64,
    pub bytes_converted: u64,
}

/// The 24 bytes of a state.
pub open spec fn state_image(s: TartineState) -> Seq<u8> {
    bytes::le(s.mode as nat, 4) + bytes::zeros(4) + bytes::le(s.bytes_total as nat, 8) + bytes::le(
        s.bytes_converted as nat,
        8,
    )
}

/// The 24 bytes of a slot: class, pinned or not, padding, and the two halves
/// of the disk's id.
pub open spec fn slot_image(slot: ReplicaSlot) -> Seq<u8> {
    match slot {
        ReplicaSlot::AnyOfClass(None) => seq![hrw::CLASS_ANY, 0u8] + bytes::zeros(22),
        ReplicaSlot::AnyOfClass(Some(c)) => seq![proto::class_number(c), 0u8] + bytes::zeros(22),
        ReplicaSlot::Pinned(id) => seq![hrw::CLASS_ANY, 1u8] + bytes::zeros(6) + bytes::le(
            (id.0 / 0x1_0000_0000_0000_0000) as nat,
            8,
        ) + bytes::le((id.0 % 0x1_0000_0000_0000_0000) as nat, 8),
    }
}

/// The slots' images, one after the other.
pub open spec fn slots_image(slots: Seq<ReplicaSlot>) -> Seq<u8>
    decreases slots.len(),
{
    if slots.len() == 0 {
        Seq::empty()
    } else {
        slots_image(slots.drop_last()) + slot_image(slots.last())
    }
}

/// The slots that an image has room for.
pub open spec fn kept_slots(slots: Seq<ReplicaSlot>) -> Seq<ReplicaSlot> {
    if slots.len() <= hrw::MAX_SELECT {
        slots
    } else {
        slots.take(hrw::MAX_SELECT as int)
    }
}

/// The image of a scheme: its kind, the number of slots, the two shard counts,
/// padding, and the slots, filled up with zeros.
pub open spec fn scheme_image(s: proto::SchemeView) -> Seq<u8> {
    match s {
        proto::SchemeView::Replicated(slots) => {
            let kept = kept_slots(slots);
            bytes::le(TARTINE_REDUNDANCY_REPLICATED as nat, 4) + bytes::le(kept.len(), 4) + bytes::zeros(8)
                + slots_image(kept) + bytes::zeros((24 * (hrw::MAX_SELECT - kept.len())) as nat)
        },
        proto::SchemeView::ErasureCoded { data_shards, parity_shards } => bytes::le(
            TARTINE_REDUNDANCY_ERASURE_CODED as nat,
            4,
        ) + bytes::zeros(4) + seq![data_shards, parity_shards] + bytes::zeros(390),
    }
}

/// The slot that 24 bytes stand for, if they stand for one. The class of a
/// pinned slot is not looked at, nor the padding.
pub open spec fn slot_of(b: Seq<u8>) -> Option<ReplicaSlot> {
    let hi = bytes::le_value(b.subrange(8, 16));
    let lo = bytes::le_value(b.subrange(16, 24));
    if b[1] != 0 {
        Some(
            ReplicaSlot::Pinned(proto::Uuid((hi * 0x1_0000_0000_0000_0000 + lo) as u128)),
        )
    } else if b[0] == hrw::CLASS_ANY {
        Some(ReplicaSlot::AnyOfClass(None))
    } else if b[0] == hrw::CLASS_HDD {
        Some(ReplicaSlot::AnyOfClass(Some(DiskClass::Hdd)))
    } else if b[0] == hrw::CLASS_SSD {
        Some(ReplicaSlot::AnyOfClass(Some(DiskClass::Ssd)))
    } else if b[0] == hrw::CLASS_NVME {
        Some(ReplicaSlot::AnyOfClass(Some(DiskClass::Nvme)))
    } else {
        None
    }
}

/// The bytes of slot `i`.
pub open spec fn slot_part(buf: Seq<u8>, i: int) -> Seq<u8> {
    buf.subrange(16 + 24 * i, 40 + 24 * i)
}

/// Each of the first `n` slots stands for one.
pub open spec fn slots_valid(buf: Seq<u8>, n: nat) -> bool {
    forall|i: int| 0 <= i < n ==> slot_of(#[trigger] slot_part(buf, i)) is Some
}

/// The scheme that an image stands for, if it stands for one.
pub open spec fn scheme_of(buf: Seq<u8>) -> Option<proto::SchemeView> {
    if buf.len() != REDUNDANCY_WIRE_SIZE {
        None
    } else {
        let kind = bytes::le_value(buf.subrange(0, 4));
        let n = bytes::le_value(buf.subrange(4, 8));
        if kind == TARTINE_REDUNDANCY_REPLICATED {
            if n <= hrw::MAX_SELECT && slots_valid(buf, n) {
                Some(
                    proto::SchemeView::Replicated(
                        Seq::new(n, |i: int| slot_of(slot_part(buf, i))->0),
                    ),
                )
            } else {
                None
            }
        } else if kind == TARTINE_REDUNDANCY_ERASURE_CODED {
            Some(proto::SchemeView::ErasureCoded { data_shards: buf[8], parity_shards: buf[9] })
        } else {
            None
        }
    }
}

// ---------------------------------------------------------------------------
// Laws
// ---------------------------------------------------------------------------

proof fn lemma_slot_image(slot: ReplicaSlot)
    ensures
        slot_image(slot).len() == 24,
        slot_of(slot_image(slot)) == Some(slot),
{
    broadcast use bytes::lemma_le_len;

    let b = slot_image(slot);
    match slot {
        ReplicaSlot::Pinned(id) => {
            let hi = (id.0 / 0x1_0000_0000_0000_0000) as nat;
            let lo = (id.0 % 0x1_0000_0000_0000_0000) as nat;
            bytes::lemma_pow256_values();
            bytes::lemma_le_round_trip(hi, 8);
            bytes::lemma_le_round_trip(lo, 8);
            assert(b.subrange(8, 16) =~= bytes::le(hi, 8));
            assert(b.subrange(16, 24) =~= bytes::le(lo, 8));
        },
        ReplicaSlot::AnyOfClass(_) => {},
    }
}

proof fn lemma_slots_image(slots: Seq<ReplicaSlot>)
    ensures
        slots_image(slots).len() == 24 * slots.len(),
        forall|i: int|
            0 <= i < slots.len() ==> #[trigger] slots_image(slots).subrange(24 * i, 24 * i + 24)
                == slot_image(slots[i]),
    decreases slots.len(),
{
    if slots.len() > 0 {
        let front = slots.drop_last();
        lemma_slots_image(front);
        lemma_slot_image(slots.last());
        assert forall|i: int| 0 <= i < slots.len() implies #[trigger] slots_image(slots).subrange(
            24 * i,
            24 * i + 24,
        ) == slot_image(slots[i]) by {
            if i < front.len() {
                assert(slots_image(slots).subrange(24 * i, 24 * i + 24) =~= slots_image(
                    front,
                ).subrange(24 * i, 24 * i + 24));
            } else {
                assert(slots_image(slots).subrange(24 * i, 24 * i + 24) =~= slot_image(
                    slots.last(),
                ));
            }
        }
    }
}

/// Every image has the size that the command numbers name.
pub proof fn images_have_one_size(s: proto::SchemeView)
    ensures
        scheme_image(s).len() == REDUNDANCY_WIRE_SIZE,
{
    broadcast use bytes::lemma_le_len;

    match s {
        proto::SchemeView::Replicated(slots) => {
            lemma_slots_image(kept_slots(slots));
        },
        _ => {},
    }
}

/// The scheme is read back from its image, up to the slots beyond the last
/// that an image has room for.
pub proof fn image_round_trip(s: proto::SchemeView)
    ensures
        scheme_of(scheme_image(s)) == Some(
            match s {
                proto::SchemeView::Replicated(slots) => proto::SchemeView::Replicated(
                    kept_slots(slots),
                ),
                _ => s,
            },
        ),
{
    broadcast use bytes::lemma_le_len;

    images_have_one_size(s);
    bytes::lemma_pow256_values();
    let buf = scheme_image(s);
    match s {
        proto::SchemeView::Replicated(slots) => {
            let kept = kept_slots(slots);
            let n = kept.len();
            bytes::lemma_le_round_trip(TARTINE_REDUNDANCY_REPLICATED as nat, 4);
            bytes::lemma_le_round_trip(n, 4);
            lemma_slots_image(kept);
            assert(buf.subrange(0, 4) =~= bytes::le(TARTINE_REDUNDANCY_REPLICATED as nat, 4));
            assert(buf.subrange(4, 8) =~= bytes::le(n, 4));
            assert forall|i: int| 0 <= i < n implies slot_of(#[trigger] slot_part(buf, i)) == Some(
                kept[i],
            ) by {
                assert(slot_part(buf, i) =~= slots_image(kept).subrange(24 * i, 24 * i + 24));
                lemma_slot_image(kept[i]);
            }
            assert(Seq::new(n, |i: int| slot_of(slot_part(buf, i))->0) =~= kept);
        },
        proto::SchemeView::ErasureCoded { .. } => {
            bytes::lemma_le_round_trip(TARTINE_REDUNDANCY_ERASURE_CODED as nat, 4);
            assert(buf.subrange(0, 4) =~= bytes::le(TARTINE_REDUNDANCY_ERASURE_CODED as nat, 4));
        },
    }
}

// ---------------------------------------------------------------------------
// Code
// ---------------------------------------------------------------------------

fn push_zeros(out: &mut Vec<u8>, n: usize)
    ensures
        final(out)@ == old(out)@ + bytes::zeros(n as nat),
{
    let ghost start = out@;
    let mut i: usize = 0;
    assert(start + bytes::zeros(0) =~= start);
    while i < n
        invariant
            i <= n,
            out@ == start + bytes::zeros(i as nat),
        decreases n - i,
    {
        out.push(0);
        i = i + 1;
        assert(start + bytes::zeros(i as nat) =~= (start + bytes::zeros((i - 1) as nat)).push(0));
    }
}

fn disk_class_to_wire(c: DiskClass) -> (n: u8)
    ensures
        n == proto::class_number(c),
{
    c.to_ffi()
}

fn disk_class_from_wire(v: u8) -> (c: Option<DiskClass>)
    ensures
        c matches Some(k) ==> v == proto::class_number(k),
        c is None ==> v != hrw::CLASS_HDD && v != hrw::CLASS_SSD && v != hrw::CLASS_NVME,
{
    if v == hrw::CLASS_HDD {
        Some(DiskClass::Hdd)
    } else if v == hrw::CLASS_SSD {
        Some(DiskClass::Ssd)
    } else if v == hrw::CLASS_NVME {
        Some(DiskClass::Nvme)
    } else {
        None
    }
}

impl TartineState {
    /// The state as it goes over the control call.
    pub fn to_bytes(self) -> (image: [u8; 24])
        ensures
            image@ == state_image(self),
    {
        broadcast use bytes::lemma_le_len;

        let mut out: Vec<u8> = Vec::new();
        bytes::push_le(&mut out, self.mode as u128, 4);
        push_zeros(&mut out, 4);
        bytes::push_le(&mut out, self.bytes_total as u128, 8);
        bytes::push_le(&mut out, self.bytes_converted as u128, 8);
        assert(out@ =~= state_image(self));
        let mut image: [u8; 24] = [0u8; 24];
        let mut i: usize = 0;
        while i < 24
            invariant
                i <= 24,
                out@.len() == 24,
                image@.len() == 24,
                forall|j: int| 0 <= j < i ==> image@[j] == out@[j],
            decreases 24 - i,
        {
            image[i] = out[i];
            i = i + 1;
        }
        assert(image@ =~= out@);
        image
    }
}

fn push_slot(out: &mut Vec<u8>, slot: ReplicaSlot)
    ensures
        final(out)@ == old(out)@ + slot_image(slot),
{
    let ghost start = out@;
    match slot {
        ReplicaSlot::AnyOfClass(None) => {
            out.push(hrw::CLASS_ANY);
            out.push(0);
            push_zeros(out, 22);
        },
        ReplicaSlot::AnyOfClass(Some(c)) => {
            out.push(disk_class_to_wire(c));
            out.push(0);
            push_zeros(out, 22);
        },
        ReplicaSlot::Pinned(id) => {
            let (hi, lo) = placement::disk_id_to_hi_lo(id);
            out.push(hrw::CLASS_ANY);
            out.push(1);
            push_zeros(out, 6);
            bytes::push_le(out, hi as u128, 8);
            bytes::push_le(out, lo as u128, 8);
        },
    }
    assert(out@ =~= start + slot_image(slot));
}

/// The scheme as it goes over the control call.
pub fn encode_set_redundancy(scheme: &RedundancyScheme) -> (image: [u8; REDUNDANCY_WIRE_SIZE])
    ensures
        image@ == scheme_image(scheme@),
{
    let mut out: Vec<u8> = Vec::new();
    match scheme {
        RedundancyScheme::Replicated(slots) => {
            let n: usize = if slots.len() < hrw::MAX_SELECT {
                slots.len()
            } else {
                hrw::MAX_SELECT
            };
            let ghost kept = kept_slots(slots@);
            bytes::push_le(&mut out, TARTINE_REDUNDANCY_REPLICATED as u128, 4);
            bytes::push_le(&mut out, n as u128, 4);
            push_zeros(&mut out, 8);
            let ghost head = out@;
            let mut i: usize = 0;
            assert(head + slots_image(kept.take(0)) =~= head);
            while i < n
                invariant
                    i <= n,
                    n == kept.len(),
                    kept.len() <= slots@.len(),
                    kept =~= slots@.take(n as int),
                    out@ == head + slots_image(kept.take(i as int)),
                decreases n - i,
            {
                push_slot(&mut out, slots[i]);
                i = i + 1;
                proof {
                    let grown = kept.take(i as int);
                    assert(grown.drop_last() =~= kept.take(i - 1));
                    assert(out@ =~= head + slots_image(grown));
                }
            }
            assert(kept.take(n as int) =~= kept);
            push_zeros(&mut out, 24 * (hrw::MAX_SELECT - n));
            assert(out@ =~= scheme_image(scheme@));
        },
        RedundancyScheme::ErasureCoded { data_shards, parity_shards } => {
            bytes::push_le(&mut out, TARTINE_REDUNDANCY_ERASURE_CODED as u128, 4);
            push_zeros(&mut out, 4);
            out.push(*data_shards);
            out.push(*parity_shards);
            push_zeros(&mut out, 390);
            assert(out@ =~= scheme_image(scheme@));
        },
    }
    proof {
        images_have_one_size(scheme@);
    }
    let mut image: [u8; REDUNDANCY_WIRE_SIZE] = [0u8; 400];
    let mut i: usize = 0;
    while i < REDUNDANCY_WIRE_SIZE
        invariant
            i <= REDUNDANCY_WIRE_SIZE,
            out@.len() == REDUNDANCY_WIRE_SIZE,
            image@.len() == REDUNDANCY_WIRE_SIZE,
            forall|j: int| 0 <= j < i ==> image@[j] == out@[j],
        decreases REDUNDANCY_WIRE_SIZE - i,
    {
        image[i] = out[i];
        i = i + 1;
    }
    assert(image@ =~= out@);
    image
}

fn decode_slot(buf: &[u8], i: usize) -> (slot: Option<ReplicaSlot>)
    requires
        i < hrw::MAX_SELECT,
        buf@.len() == REDUNDANCY_WIRE_SIZE,
    ensures
        slot == slot_of(slot_part(buf@, i as int)),
{
    let base: usize = 16 + 24 * i;
    let hi: u64 = bytes::read_le(buf, base + 8, 8) as u64;
    let lo: u64 = bytes::read_le(buf, base + 16, 8) as u64;
    proof {
        bytes::lemma_pow256_values();
        let part = slot_part(buf@, i as int);
        assert(part.subrange(8, 16) =~= buf@.subrange(base + 8, base + 16));
        assert(part.subrange(16, 24) =~= buf@.subrange(base + 16, base + 24));
    }
    let class: u8 = buf[base];
    let pinned: u8 = buf[base + 1];
    if pinned != 0 {
        Some(ReplicaSlot::Pinned(placement::disk_id_from_hi_lo(hi, lo)))
    } else if class == hrw::CLASS_ANY {
        Some(ReplicaSlot::AnyOfClass(None))
    } else {
        match disk_class_from_wire(class) {
            Some(c) => Some(ReplicaSlot::AnyOfClass(Some(c))),
            None => None,
        }
    }
}

/// The scheme that came over the control call. `None` for a buffer of another
/// length, an unknown kind, too many slots, or an unknown class in a slot that
/// is not pinned.
pub fn decode_set_redundancy(buf: &[u8]) -> (scheme: Option<RedundancyScheme>)
    ensures
        scheme is Some <==> scheme_of(buf@) is Some,
        scheme matches Some(s) ==> scheme_of(buf@) == Some(s@),
{
    if buf.len() != REDUNDANCY_WIRE_SIZE {
        return None;
    }
    proof {
        bytes::lemma_pow256_values();
    }
    let kind: u32 = bytes::read_le(buf, 0, 4) as u32;
    if kind == TARTINE_REDUNDANCY_REPLICATED {
        let n: u32 = bytes::read_le(buf, 4, 4) as u32;
        if n as usize > hrw::MAX_SELECT {
            return None;
        }
        let n: usize = n as usize;
        let mut slots: Vec<ReplicaSlot> = Vec::new();
        let mut i: usize = 0;
        while i < n
            invariant
                i <= n <= hrw::MAX_SELECT,
                buf@.len() == REDUNDANCY_WIRE_SIZE,
                n == bytes::le_value(buf@.subrange(4, 8)),
                bytes::le_value(buf@.subrange(0, 4)) == TARTINE_REDUNDANCY_REPLICATED,
                slots@.len() == i,
                forall|j: int|
                    0 <= j < i ==> slot_of(#[trigger] slot_part(buf@, j)) == Some(slots@[j]),
            decreases n - i,
        {
            match decode_slot(buf, i) {
                Some(slot) => {
                    slots.push(slot);
                },
                None => {
                    assert(slot_of(slot_part(buf@, i as int)) is None);
                    return None;
                },
            }
            i = i + 1;
        }
        assert(slots@ =~= Seq::new(n as nat, |j: int| slot_of(slot_part(buf@, j))->0));
        Some(RedundancyScheme::Replicated(slots))
    } else if kind == TARTINE_REDUNDANCY_ERASURE_CODED {
        Some(RedundancyScheme::ErasureCoded { data_shards: buf[8], parity_shards: buf[9] })
    } else {
        None
    }
}

/// A state is its mode as a number, padding, and two byte counts, in that order.
pub proof fn a_state_has_its_parts_in_order(s: TartineState)
    ensures
        ({
            let b = state_image(s);
            &&& b.len() == 24
            &&& bytes::le_value(b.subrange(0, 4)) == s.mode
            &&& bytes::le_value(b.subrange(4, 8)) == 0
            &&& bytes::le_value(b.subrange(8, 16)) == s.bytes_total
            &&& bytes::le_value(b.subrange(16, 24)) == s.bytes_converted
        }),
{
    broadcast use bytes::lemma_le_len;

    let b = state_image(s);
    bytes::lemma_pow256_values();
    bytes::lemma_le_round_trip(s.mode as nat, 4);
    bytes::lemma_le_round_trip(0, 4);
    bytes::lemma_le_round_trip(s.bytes_total as nat, 8);
    bytes::lemma_le_round_trip(s.bytes_converted as nat, 8);
    assert(b.subrange(0, 4) =~= bytes::le(s.mode as nat, 4));
    lemma_zeros_value(4);
    assert(b.subrange(4, 8) =~= bytes::zeros(4));
    assert(b.subrange(8, 16) =~= bytes::le(s.bytes_total as nat, 8));
    assert(b.subrange(16, 24) =~= bytes::le(s.bytes_converted as nat, 8));
}

proof fn lemma_zeros_value(n: nat)
    ensures
        bytes::le_value(bytes::zeros(n)) == 0,
    decreases n,
{
    if n > 0 {
        lemma_zeros_value((n - 1) as nat);
        assert(bytes::zeros(n).drop_first() =~= bytes::zeros((n - 1) as nat));
    }
}

/// An image of replicas has the number of slots behind its kind, and each slot at
/// its place: its class, whether it names a disk, and the two halves of the
/// disk's number, the upper one first.
pub proof fn an_image_has_its_slots_in_order(slots: Seq<ReplicaSlot>, i: int)
    requires
        slots.len() <= 16,
        0 <= i < slots.len(),
    ensures
        ({
            let b = scheme_image(proto::SchemeView::Replicated(slots));
            let at = 16 + 24 * i;
            &&& b.len() == 400
            &&& bytes::le_value(b.subrange(0, 4)) == 0
            &&& bytes::le_value(b.subrange(4, 8)) == slots.len()
            &&& match slots[i] {
                ReplicaSlot::AnyOfClass(None) => b[at] == 255 && b[at + 1] == 0,
                ReplicaSlot::AnyOfClass(Some(DiskClass::Hdd)) => b[at] == 0 && b[at + 1] == 0,
                ReplicaSlot::AnyOfClass(Some(DiskClass::Ssd)) => b[at] == 1 && b[at + 1] == 0,
                ReplicaSlot::AnyOfClass(Some(DiskClass::Nvme)) => b[at] == 2 && b[at + 1] == 0,
                ReplicaSlot::Pinned(id) => {
                    &&& b[at] == 255 && b[at + 1] == 1
                    &&& bytes::le_value(b.subrange(at + 8, at + 16)) * 0x1_0000_0000_0000_0000
                        + bytes::le_value(b.subrange(at + 16, at + 24)) == id.0
                },
            }
        }),
{
    broadcast use bytes::lemma_le_len;

    let s = proto::SchemeView::Replicated(slots);
    let b = scheme_image(s);
    let at = 16 + 24 * i;
    images_have_one_size(s);
    lemma_slots_image(slots);
    lemma_slot_image(slots[i]);
    bytes::lemma_pow256_values();
    bytes::lemma_le_round_trip(0, 4);
    bytes::lemma_le_round_trip(slots.len(), 4);
    assert(b.subrange(0, 4) =~= bytes::le(0, 4));
    assert(b.subrange(4, 8) =~= bytes::le(slots.len(), 4));
    let image = slots_image(slots).subrange(24 * i, 24 * i + 24);
    assert(b.subrange(at, at + 24) =~= image);
    assert(image == slot_image(slots[i]));
    assert(b[at] == image[0] && b[at + 1] == image[1]);
    if let ReplicaSlot::Pinned(id) = slots[i] {
        let hi = (id.0 / 0x1_0000_0000_0000_0000) as nat;
        let lo = (id.0 % 0x1_0000_0000_0000_0000) as nat;
        bytes::lemma_le_round_trip(hi, 8);
        bytes::lemma_le_round_trip(lo, 8);
        assert(b.subrange(at + 8, at + 16) =~= image.subrange(8, 16));
        assert(b.subrange(at + 16, at + 24) =~= image.subrange(16, 24));
        assert(image.subrange(8, 16) =~= bytes::le(hi, 8));
        assert(image.subrange(16, 24) =~= bytes::le(lo, 8));
    }
}

/// An image stands for what it says: as many slots as its count, each the one at
/// its place. One of another size or kind, with more than sixteen slots or with a
/// slot of no class stands for nothing.
pub proof fn an_image_stands_for_what_it_says(buf: Seq<u8>, i: int)
    ensures
        ({
            let kind = bytes::le_value(buf.subrange(0, 4));
            let n = bytes::le_value(buf.subrange(4, 8));
            let at = 16 + 24 * i;
            &&& match scheme_of(buf) {
                Some(proto::SchemeView::Replicated(slots)) => {
                    &&& buf.len() == 400 && kind == 0 && slots.len() == n && n <= 16
                    &&& 0 <= i < n ==> match slots[i] {
                        ReplicaSlot::Pinned(id) => buf[at + 1] != 0 && id.0 == bytes::le_value(
                            buf.subrange(at + 8, at + 16),
                        ) * 0x1_0000_0000_0000_0000 + bytes::le_value(
                            buf.subrange(at + 16, at + 24),
                        ),
                        ReplicaSlot::AnyOfClass(None) => buf[at + 1] == 0 && buf[at] == 255,
                        ReplicaSlot::AnyOfClass(Some(DiskClass::Hdd)) => buf[at + 1] == 0
                            && buf[at] == 0,
                        ReplicaSlot::AnyOfClass(Some(DiskClass::Ssd)) => buf[at + 1] == 0
                            && buf[at] == 1,
                        ReplicaSlot::AnyOfClass(Some(DiskClass::Nvme)) => buf[at + 1] == 0
                            && buf[at] == 2,
                    }
                },
                Some(proto::SchemeView::ErasureCoded { data_shards, parity_shards }) => {
                    buf.len() == 400 && kind == 1 && data_shards == buf[8] && parity_shards
                        == buf[9]
                },
                None => {
                    ||| buf.len() != 400
                    ||| kind > 1
                    ||| kind == 0 && n > 16
                    ||| kind == 0 && exists|j: int|
                        0 <= j < n && (#[trigger] slot_part(buf, j))[1] == 0 && 2 < slot_part(
                            buf,
                            j,
                        )[0] < 255
                },
            }
        }),
{
    let n = bytes::le_value(buf.subrange(4, 8));
    let at = 16 + 24 * i;
    if buf.len() == 400 && n <= 16 && 0 <= i < n {
        let part = slot_part(buf, i);
        assert(part.subrange(8, 16) =~= buf.subrange(at + 8, at + 16));
        assert(part.subrange(16, 24) =~= buf.subrange(at + 16, at + 24));
        bytes::lemma_pow256_values();
        bytes::lemma_le_value_bound(part.subrange(8, 16));
        bytes::lemma_le_value_bound(part.subrange(16, 24));
        assert(part[0] == buf[at] && part[1] == buf[at + 1]);
    }
}

/// An image keeps the first sixteen slots of a longer scheme.
pub proof fn an_image_has_room_for_sixteen(slots: Seq<ReplicaSlot>)
    ensures
        slots.len() <= 16 ==> scheme_of(scheme_image(proto::SchemeView::Replicated(slots)))
            == Some(proto::SchemeView::Replicated(slots)),
        slots.len() > 16 ==> scheme_of(scheme_image(proto::SchemeView::Replicated(slots)))
            == Some(proto::SchemeView::Replicated(slots.take(16))),
{
    image_round_trip(proto::SchemeView::Replicated(slots));
}

} // verus!
