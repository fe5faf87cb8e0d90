//! The layout of a TWP frame.
//!
//! A frame is sixteen bytes.  Positions 0 to 14 each hold either a byte of
//! data or, at an even position only, a stream ID.  Position 15 is the AUX
//! byte: bit `i / 2` of it belongs to the even position `i` and holds the
//! lowest bit of the data byte there or, for an ID, whether the change of
//! stream is delayed by one byte.
//!
//! What a position holds is a [`Slot`]; [`slot_at`] reads it in a frame,
//! [`slots_upto`] reads the slots of a sequence of frames in order.

use vstd::prelude::*;

verus! {

/// The frame synchronization packet.
pub const FSYNC: [u8; 4] = [0xFF, 0xFF, 0xFF, 0x7F];

/// What one of the first fifteen positions of a frame holds.
#[derive(Debug, PartialEq, Eq, Copy, Clone)]
pub enum Slot {
    /// A byte of data.
    Data(u8),
    /// A change of stream ID; a delayed change takes effect after the byte
    /// that follows.
    Id { id: u8, delayed: bool },
}

/// The AUX bit that belongs to the even position `pos`.
pub open spec fn aux_bit(aux: u8, pos: int) -> u8 {
    (aux >> ((pos / 2) as u8)) & 1
}

/// The AUX byte marks position 14 as a delayed ID, which the format does
/// not allow.
pub open spec fn aux_invalid(frame: Seq<u8>) -> bool {
    frame[15] & 0x80 == 0x80 && frame[14] & 0x01 == 0x01
}

/// The AUX byte as the parser uses it: an invalid one has its top bit
/// cleared.
pub open spec fn effective_aux(frame: Seq<u8>) -> u8 {
    if aux_invalid(frame) {
        frame[15] & 0x7F
    } else {
        frame[15]
    }
}

/// What position `pos` of `frame` holds, for `0 <= pos < 15`.
pub open spec fn slot_at(frame: Seq<u8>, pos: int) -> Slot {
    if pos % 2 == 1 {
        Slot::Data(frame[pos])
    } else {
        let bit = aux_bit(effective_aux(frame), pos);
        if frame[pos] & 0x01 == 0x01 {
            Slot::Id { id: frame[pos] >> 1, delayed: bit == 1 }
        } else {
            Slot::Data((frame[pos] & 0xFE) | bit)
        }
    }
}

/// Frame number `index` of `bytes`.
pub open spec fn chunk(bytes: Seq<u8>, index: int) -> Seq<u8> {
    bytes.subrange(16 * index, 16 * index + 16)
}

/// Offset of the AUX byte of the frame that holds `offset`.
pub open spec fn aux_pos(offset: int) -> int {
    offset / 16 * 16 + 15
}

/// What the byte `byte` at position `pos` of a frame holds, given the
/// frame's AUX byte.
pub open spec fn raw_slot(byte: u8, aux: u8, pos: int) -> Slot {
    if pos % 2 == 1 {
        Slot::Data(byte)
    } else {
        let bit = (aux >> ((pos / 2) as u8)) & 1;
        if byte & 0x01 == 0x01 {
            Slot::Id { id: byte >> 1, delayed: pos != 14 && bit == 1 }
        } else {
            Slot::Data((byte & 0xFE) | bit)
        }
    }
}

/// What a parser reads at offset `offset` of the frames `bytes`; `offset`
/// is not that of an AUX byte.
pub open spec fn slot_in(bytes: Seq<u8>, offset: int) -> Slot {
    slot_at(chunk(bytes, offset / 16), offset % 16)
}

/// What a parser reads in the first `offset` bytes of `bytes`, in order.
pub open spec fn slots_upto(bytes: Seq<u8>, offset: int) -> Seq<Slot>
    decreases offset,
{
    if offset <= 0 {
        Seq::empty()
    } else if (offset - 1) % 16 == 15 {
        slots_upto(bytes, offset - 1)
    } else {
        slots_upto(bytes, offset - 1).push(slot_in(bytes, offset - 1))
    }
}

/// `count` bytes of data, all zero.
pub open spec fn zero_slots(count: nat) -> Seq<Slot> {
    Seq::new(count, |i: int| Slot::Data(0))
}

/// No frame of `bytes` has an invalid AUX byte.
pub open spec fn aux_bytes_valid(bytes: Seq<u8>) -> bool {
    forall|k: int| 0 <= k < bytes.len() / 16 ==> !aux_invalid(#[trigger] chunk(bytes, k))
}

/// How a byte of data is split between its even position and the AUX byte,
/// and put together again.
pub(crate) proof fn lemma_data_byte(d: u8)
    ensures
        (d & 0xFE) & 0x01 != 0x01,
        d & 0x01 == 0 || d & 0x01 == 1,
        d & 0x01 == 0 ==> ((d & 0xFE) & 0xFE) | 0 == d,
        d & 0x01 == 1 ==> ((d & 0xFE) & 0xFE) | 1 == d,
        d & 0x01 == 0x01 <==> !(d & 0x01 == 0),
{
    assert((d & 0xFE) & 0x01 != 0x01 && (d & 0x01 == 0 || d & 0x01 == 1) && (d & 0x01 == 0 ==> ((d
        & 0xFE) & 0xFE) | 0 == d) && (d & 0x01 == 1 ==> ((d & 0xFE) & 0xFE) | 1 == d))
        by (bit_vector);
}

/// How an ID is put into a byte and taken out of it again.
pub(crate) proof fn lemma_id_byte(id: u8)
    requires
        id < 0x80,
    ensures
        (id << 1 | 0x01) & 0x01 == 0x01,
        (id << 1 | 0x01) >> 1 == id,
{
    assert(id < 0x80 ==> (id << 1 | 0x01) & 0x01 == 0x01 && (id << 1 | 0x01) >> 1 == id)
        by (bit_vector);
}

/// A byte is an ID byte with the reserved ID exactly when it is `0xFF`.
pub(crate) proof fn lemma_reserved_id(byte: u8)
    requires
        byte & 0x01 == 0x01,
    ensures
        byte == 0xFF <==> byte >> 1 == 0x7F,
{
    assert(byte & 0x01 == 0x01 ==> (byte == 0xFF <==> byte >> 1 == 0x7F)) by (bit_vector);
}

/// The bits of an AUX byte, and of one with its top bit cleared.
pub(crate) proof fn lemma_aux_masked(aux: u8, shift: u8)
    requires
        shift < 8,
    ensures
        (aux >> shift) & 1 == 0 || (aux >> shift) & 1 == 1,
        shift < 7 ==> ((aux & 0x7F) >> shift) & 1 == (aux >> shift) & 1,
        ((aux & 0x7F) >> 7u8) & 1 == 0,
        aux & 0x80 == 0x80 <==> (aux >> 7u8) & 1 == 1,
        (aux & 0x7F) & 0x80 != 0x80,
        (0u8 >> shift) & 1 == 0,
        0u8 & 0x80 != 0x80,
        0u8 & 0x01 != 0x01,
        (0u8 & 0xFE) | 0 == 0,
{
    assert(shift < 8 ==> ((aux >> shift) & 1 == 0 || (aux >> shift) & 1 == 1) && (shift < 7 ==> ((
    aux & 0x7F) >> shift) & 1 == (aux >> shift) & 1) && ((aux & 0x7F) >> 7u8) & 1 == 0 && (aux
        & 0x80 == 0x80 <==> (aux >> 7u8) & 1 == 1) && (aux & 0x7F) & 0x80 != 0x80 && (0u8 >> shift)
        & 1 == 0 && 0u8 & 0x80 != 0x80 && 0u8 & 0x01 != 0x01 && (0u8 & 0xFE) | 0 == 0)
        by (bit_vector);
}

/// Setting or clearing bit `k` of an AUX byte changes bit `k` and no other.
pub(crate) proof fn lemma_aux_bits(aux: u8, k: u8, j: u8)
    requires
        k < 8,
        j < 8,
    ensures
        ((aux & !(1u8 << k)) >> j) & 1 == if j == k {
            0
        } else {
            (aux >> j) & 1
        },
        ((aux | (1u8 << k)) >> j) & 1 == if j == k {
            1
        } else {
            (aux >> j) & 1
        },
        (aux & !(1u8 << k)) & 0x80 == if k == 7 {
            0
        } else {
            aux & 0x80
        },
        k < 7 ==> (aux | (1u8 << k)) & 0x80 == aux & 0x80,
{
    assert(k < 8 && j < 8 ==> (((aux & !(1u8 << k)) >> j) & 1 == if j == k {
        0
    } else {
        (aux >> j) & 1
    }) && (((aux | (1u8 << k)) >> j) & 1 == if j == k {
        1
    } else {
        (aux >> j) & 1
    }) && ((aux & !(1u8 << k)) & 0x80 == if k == 7 {
        0
    } else {
        aux & 0x80
    }) && (k < 7 ==> (aux | (1u8 << k)) & 0x80 == aux & 0x80)) by (bit_vector);
}

/// An ID at position 14 is never a delayed one: where the AUX byte says
/// so, it is invalid and its top bit is ignored.
pub proof fn lemma_last_id_is_immediate(frame: Seq<u8>)
    requires
        frame.len() == 16,
    ensures
        match slot_at(frame, 14) {
            Slot::Id { id, delayed } => !delayed,
            Slot::Data(_) => true,
        },
{
    lemma_aux_masked(frame[15], 7);
}

/// What a parser reads at an offset depends on the byte there and, at an
/// even offset, on the bit of the frame's AUX byte that belongs to it.
pub proof fn lemma_slot_in_raw(bytes: Seq<u8>, offset: int)
    requires
        0 <= offset,
        offset % 16 != 15,
        aux_pos(offset) < bytes.len(),
    ensures
        slot_in(bytes, offset) == raw_slot(bytes[offset], bytes[aux_pos(offset)], offset % 16),
{
    let frame = chunk(bytes, offset / 16);
    let pos = offset % 16;
    let aux = bytes[aux_pos(offset)];
    let b14 = frame[14];
    assert(frame[pos] == bytes[offset]);
    assert(frame[15] == aux);
    if pos % 2 == 0 {
        lemma_aux_masked(aux, (pos / 2) as u8);
        lemma_data_byte(b14);
    }
}

/// Among the first `offset` bytes, every byte but the AUX bytes is a slot.
pub proof fn lemma_slots_len(bytes: Seq<u8>, offset: int)
    requires
        0 <= offset,
    ensures
        slots_upto(bytes, offset).len() == offset - offset / 16,
    decreases offset,
{
    if offset > 0 {
        lemma_slots_len(bytes, offset - 1);
    }
}

/// The slot at offset `at` is slot number `at - at / 16`.
pub proof fn lemma_slot_index(bytes: Seq<u8>, offset: int, at: int)
    requires
        0 <= at < offset,
        at % 16 != 15,
    ensures
        at - at / 16 < slots_upto(bytes, offset).len(),
        slots_upto(bytes, offset)[at - at / 16] == slot_in(bytes, at),
    decreases offset,
{
    lemma_slots_len(bytes, offset);
    lemma_slots_len(bytes, offset - 1);
    if at < offset - 1 {
        lemma_slot_index(bytes, offset - 1, at);
    }
}

proof fn lemma_raw_slot_determines(b1: u8, aux1: u8, b2: u8, aux2: u8, pos: int)
    requires
        0 <= pos <= 14,
        raw_slot(b1, aux1, pos) == raw_slot(b2, aux2, pos),
    ensures
        b1 == b2,
        pos % 2 == 0 && (pos != 14 || b1 & 0x01 != 0x01) ==> (aux1 >> ((pos / 2) as u8)) & 1 == (
        aux2 >> ((pos / 2) as u8)) & 1,
{
    if pos % 2 == 0 {
        let j = (pos / 2) as u8;
        let c1 = (aux1 >> j) & 1;
        let c2 = (aux2 >> j) & 1;
        lemma_aux_masked(aux1, j);
        lemma_aux_masked(aux2, j);
        lemma_data_byte(b1);
        lemma_data_byte(b2);
        assert((b1 & 0x01 == 0x01 && b2 & 0x01 == 0x01 && b1 >> 1 == b2 >> 1 ==> b1 == b2) && ((c1
            == 0 || c1 == 1) && (c2 == 0 || c2 == 1) && b1 & 0x01 != 0x01 && b2 & 0x01 != 0x01 && (
        b1 & 0xFE) | c1 == (b2 & 0xFE) | c2 ==> b1 == b2 && c1 == c2)) by (bit_vector);
    }
}

proof fn lemma_same_bits(a: u8, b: u8)
    requires
        forall|j: u8| j < 8 ==> (#[trigger] (a >> j)) & 1 == (b >> j) & 1,
    ensures
        a == b,
{
    assert((a >> 0u8) & 1 == (b >> 0u8) & 1);
    assert((a >> 1u8) & 1 == (b >> 1u8) & 1);
    assert((a >> 2u8) & 1 == (b >> 2u8) & 1);
    assert((a >> 3u8) & 1 == (b >> 3u8) & 1);
    assert((a >> 4u8) & 1 == (b >> 4u8) & 1);
    assert((a >> 5u8) & 1 == (b >> 5u8) & 1);
    assert((a >> 6u8) & 1 == (b >> 6u8) & 1);
    assert((a >> 7u8) & 1 == (b >> 7u8) & 1);
    assert(((a >> 0u8) & 1 == (b >> 0u8) & 1 && (a >> 1u8) & 1 == (b >> 1u8) & 1 && (a >> 2u8) & 1
        == (b >> 2u8) & 1 && (a >> 3u8) & 1 == (b >> 3u8) & 1 && (a >> 4u8) & 1 == (b >> 4u8) & 1
        && (a >> 5u8) & 1 == (b >> 5u8) & 1 && (a >> 6u8) & 1 == (b >> 6u8) & 1 && (a >> 7u8) & 1
        == (b >> 7u8) & 1) ==> a == b) by (bit_vector);
}

/// Two frames in which a parser reads the same, and whose AUX bytes are
/// valid, are the same frame.
proof fn lemma_frame_determined(a: Seq<u8>, b: Seq<u8>)
    requires
        a.len() == 16,
        b.len() == 16,
        forall|p: int| 0 <= p < 15 ==> raw_slot(a[p], a[15], p) == raw_slot(b[p], b[15], p),
        !(a[15] & 0x80 == 0x80 && a[14] & 0x01 == 0x01),
        !(b[15] & 0x80 == 0x80 && b[14] & 0x01 == 0x01),
    ensures
        a == b,
{
    assert forall|p: int| 0 <= p < 15 implies a[p] == b[p] by {
        lemma_raw_slot_determines(a[p], a[15], b[p], b[15], p);
    }
    assert forall|j: u8| j < 8 implies (#[trigger] (a[15] >> j)) & 1 == (b[15] >> j) & 1 by {
        let p = 2 * j as int;
        assert((p / 2) as u8 == j);
        lemma_raw_slot_determines(a[p], a[15], b[p], b[15], p);
        if j == 7 {
            lemma_aux_masked(a[15], 7);
            lemma_aux_masked(b[15], 7);
        }
    }
    lemma_same_bits(a[15], b[15]);
    assert(a =~= b);
}

/// Frames are determined by what a parser reads in them: two sequences of
/// whole frames with valid AUX bytes that hold the same slots are the same
/// bytes.
pub proof fn lemma_frames_determined(a: Seq<u8>, b: Seq<u8>)
    requires
        a.len() == b.len(),
        a.len() % 16 == 0,
        slots_upto(a, a.len() as int) == slots_upto(b, b.len() as int),
        aux_bytes_valid(a),
        aux_bytes_valid(b),
    ensures
        a == b,
{
    let n = a.len() as int;
    assert forall|k: int| 0 <= k < n / 16 implies #[trigger] chunk(a, k) == chunk(b, k) by {
        let ca = chunk(a, k);
        let cb = chunk(b, k);
        assert(!aux_invalid(ca));
        assert(!aux_invalid(cb));
        assert forall|p: int| 0 <= p < 15 implies raw_slot(ca[p], ca[15], p) == raw_slot(
            cb[p],
            cb[15],
            p,
        ) by {
            let o = 16 * k + p;
            lemma_slot_index(a, n, o);
            lemma_slot_index(b, n, o);
            lemma_slot_in_raw(a, o);
            lemma_slot_in_raw(b, o);
        }
        lemma_frame_determined(ca, cb);
    }
    assert forall|o: int| 0 <= o < n implies a[o] == b[o] by {
        assert(chunk(a, o / 16) == chunk(b, o / 16));
        assert(chunk(a, o / 16)[o % 16] == a[o]);
        assert(chunk(b, o / 16)[o % 16] == b[o]);
    }
    assert(a =~= b);
}

pub(crate) proof fn lemma_slots_upto_same(a: Seq<u8>, b: Seq<u8>, offset: int)
    requires
        forall|o: int| 0 <= o < offset && o % 16 != 15 ==> slot_in(a, o) == slot_in(b, o),
    ensures
        slots_upto(a, offset) == slots_upto(b, offset),
    decreases offset,
{
    if offset > 0 {
        lemma_slots_upto_same(a, b, offset - 1);
    }
}

pub(crate) proof fn lemma_slots_upto_zero(bytes: Seq<u8>, from: int, to: int)
    requires
        0 <= from <= to,
        forall|o: int| from <= o < to && o % 16 != 15 ==> slot_in(bytes, o) == Slot::Data(0),
    ensures
        slots_upto(bytes, to).len() >= slots_upto(bytes, from).len(),
        slots_upto(bytes, to) == slots_upto(bytes, from) + zero_slots(
            (slots_upto(bytes, to).len() - slots_upto(bytes, from).len()) as nat,
        ),
    decreases to - from,
{
    if from == to {
        assert(slots_upto(bytes, to) =~= slots_upto(bytes, from) + zero_slots(0));
    } else {
        lemma_slots_upto_zero(bytes, from, to - 1);
        let n = (slots_upto(bytes, to).len() - slots_upto(bytes, from).len()) as nat;
        assert(slots_upto(bytes, to) =~= slots_upto(bytes, from) + zero_slots(n));
    }
}

} // verus!
