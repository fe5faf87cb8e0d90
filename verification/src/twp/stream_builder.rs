//! Builds a TWP stream.
//!
//! [`StreamBuilder`] takes stream IDs and data and writes frames to a sink.
//! An ID is not written when it is set, but before the next byte of data:
//! at an even position of the frame as an immediate ID, at an odd one as a
//! delayed ID that takes the place of the byte of data before it, which
//! follows it.  For that, the byte at an even position is held back until
//! the position after it is filled.
//!
//! The view of a builder is the sequence of slots that it has been made to
//! emit; once a frame is complete, those are what a parser reads in the
//! bytes written to the sink.

use crate::twp::frame::{
    aux_bytes_valid,
    aux_invalid,
    chunk,
    lemma_aux_bits,
    lemma_data_byte,
    lemma_id_byte,
    lemma_last_id_is_immediate,
    lemma_slot_in_raw,
    lemma_slots_len,
    lemma_slots_upto_same,
    raw_slot,
    slot_in,
    slots_upto,
    zero_slots,
    Slot,
};
use crate::twp::frame_parser::{stream_id_value, StreamId};
use crate::twp::stream::settled;
use vstd::prelude::*;

verus! {

/// Why a stream builder refuses what it is asked.
#[derive(Debug, PartialEq, Eq, Copy, Clone)]
pub enum Error {
    /// The stream ID is not below `0x7F`; with it comes the number of bytes
    /// written so far.
    InvalidStreamId(u8, usize),
}

/// What goes to a position of a frame.
#[derive(Debug, PartialEq, Eq, Copy, Clone)]
pub enum ByteType {
    Data(u8),
    Id(u8),
}

/// The slot that `byte` makes at an even position, an ID being immediate.
pub open spec fn slot_of(byte: ByteType) -> Slot {
    match byte {
        ByteType::Data(d) => Slot::Data(d),
        ByteType::Id(i) => Slot::Id { id: i, delayed: false },
    }
}

/// The slots `slots` followed by the ID `id`.  Where the ID falls on an odd
/// position of the frame, it goes before the last slot instead, as a delayed
/// one.
pub open spec fn push_id(slots: Seq<Slot>, id: u8) -> Seq<Slot> {
    if (slots.len() % 15) % 2 == 0 {
        slots.push(Slot::Id { id, delayed: false })
    } else {
        slots.drop_last().push(Slot::Id { id, delayed: true }).push(slots.last())
    }
}

/// The slots `slots` followed by the bytes of data `data`.
pub open spec fn push_data(slots: Seq<Slot>, data: Seq<u8>) -> Seq<Slot> {
    slots + Seq::new(data.len(), |i: int| Slot::Data(data[i]))
}

/// The slots `slots` followed by what `byte` stands for.
pub open spec fn push_byte_type(slots: Seq<Slot>, byte: ByteType) -> Seq<Slot> {
    match byte {
        ByteType::Data(d) => slots.push(Slot::Data(d)),
        ByteType::Id(i) => push_id(slots, i),
    }
}

/// The slots `slots` followed by the ID `id`, if there is one, and the
/// bytes of data `data`; nothing is added where there is no data.
pub open spec fn push_id_data(slots: Seq<Slot>, id: Option<u8>, data: Seq<u8>) -> Seq<Slot> {
    if data.len() == 0 {
        slots
    } else {
        match id {
            Some(i) => push_data(push_id(slots, i), data),
            None => push_data(slots, data),
        }
    }
}

/// The slots `slots` with their last frame completed: where the frame is
/// not complete, the null ID and then zero data up to its end.
pub open spec fn pad_slots(slots: Seq<Slot>) -> Seq<Slot> {
    if slots.len() % 15 == 0 {
        slots
    } else {
        let with_id = push_id(slots, 0);
        with_id + zero_slots((15 - with_id.len() % 15) as nat % 15)
    }
}

/// Builds a stream of frames in the sink `out`.
pub struct StreamBuilder<'a> {
    /// Where the frames go.
    pub out: &'a mut Vec<u8>,
    /// AUX byte of the frame that is being written, as far as it is known.
    pub aux: u8,
    /// The ID written last.
    pub current_id: u8,
    /// The ID to write before the next byte of data.
    pub next_id: Option<u8>,
    /// What goes to the even position before `frame_offset`, while that is
    /// odd.
    pub even_byte: ByteType,
    /// Position in the frame of what comes next.
    pub frame_offset: usize,
    /// Number of bytes written to the sink.
    pub total: usize,
}

spec fn partial_slots(
    frames: Seq<u8>,
    base: int,
    frame_offset: int,
    aux: u8,
    even_byte: ByteType,
) -> Seq<Slot> {
    Seq::new(
        frame_offset as nat,
        |p: int|
            if p < frame_offset - frame_offset % 2 {
                raw_slot(frames[base + p], aux, p)
            } else {
                slot_of(even_byte)
            },
    )
}

impl<'a> View for StreamBuilder<'a> {
    type V = Seq<Slot>;

    closed spec fn view(&self) -> Seq<Slot> {
        self.slots()
    }
}

impl<'a> StreamBuilder<'a> {
    /// The slots emitted: those of the whole frames written, those of the
    /// frame in progress, and the one held back.
    #[verifier::opaque]
    spec fn slots(&self) -> Seq<Slot> {
        slots_upto(self.frames(), self.base()) + partial_slots(
            self.frames(),
            self.base(),
            self.frame_offset as int,
            self.aux,
            self.even_byte,
        )
    }

    /// The bytes that the builder has written to the sink.
    pub closed spec fn frames(&self) -> Seq<u8> {
        self.out@.skip(self.out@.len() - self.total)
    }

    /// Number of bytes that the builder has written to the sink.
    pub closed spec fn total(&self) -> usize {
        self.total
    }

    /// The ID set for the data to come, if it has not been written yet.
    pub closed spec fn pending_id(&self) -> Option<u8> {
        self.next_id
    }

    /// The ID written last, and zero before any is.
    pub closed spec fn current_id(&self) -> u8 {
        self.current_id
    }

    spec fn base(&self) -> int {
        self.total - (self.frame_offset - self.frame_offset % 2)
    }

    spec fn inv(&self) -> bool {
        &&& self.total <= self.out@.len()
        &&& self.frame_offset <= 14
        &&& self.base() >= 0
        &&& self.base() % 16 == 0
        &&& aux_bytes_valid(self.frames().take(self.base()))
        &&& match self.even_byte {
            ByteType::Id(i) => self.frame_offset % 2 == 1 ==> i < 0x7F,
            ByteType::Data(_) => true,
        }
        &&& match self.next_id {
            Some(i) => i < 0x7F,
            None => true,
        }
        &&& self.current_id < 0x7F
    }

    /// What the sink holds.
    pub open spec fn sink(&self) -> Seq<u8> {
        self.out@
    }

    /// What the sink held before the builder wrote to it.
    pub closed spec fn prefix(&self) -> Seq<u8> {
        self.out@.take(self.out@.len() - self.total)
    }

    /// The sink holds what it held before, then what the builder wrote.
    pub proof fn lemma_sink(&self)
        requires
            self.wf(),
        ensures
            self.sink() == self.prefix() + self.frames(),
            self.frames().len() == self.total(),
    {
        assert(self.sink() =~= self.prefix() + self.frames());
    }

    /// The builder is consistent.
    pub closed spec fn wf(&self) -> bool {
        &&& self.inv()
        &&& self.frame_offset % 2 == 1 ==> self.even_byte is Data
    }

    /// Once the last frame is complete, everything emitted is in the sink:
    /// the bytes written are whole frames with valid AUX bytes in which a
    /// parser reads the builder's view.
    pub proof fn lemma_complete(&self)
        requires
            self.wf(),
            self@.len() % 15 == 0,
        ensures
            self.frames().len() % 16 == 0,
            self.frames().len() == self.total(),
            aux_bytes_valid(self.frames()),
            slots_upto(self.frames(), self.frames().len() as int) == self@,
    {
        reveal(StreamBuilder::slots);
        lemma_slots_len(self.frames(), self.base());
        assert(self.frame_offset == 0);
        assert(self.frames().take(self.base()) =~= self.frames());
        assert(self@ =~= slots_upto(self.frames(), self.base()));
    }

    /// A builder that writes to `out`, after what `out` holds.
    pub fn new(out: &'a mut Vec<u8>) -> (r: Self)
        ensures
            *r.out == *old(out),
            *final(r.out) == *final(out),
            r.wf(),
            r@ == Seq::<Slot>::empty(),
            r.total() == 0,
            r.pending_id() is None,
            r.current_id() == 0,
            r.prefix() == old(out)@,
    {
        reveal(StreamBuilder::slots);
        let r = StreamBuilder {
            out,
            aux: 0,
            current_id: 0,
            next_id: None,
            even_byte: ByteType::Data(0),
            frame_offset: 0,
            total: 0,
        };
        assert(r.frames() =~= Seq::<u8>::empty());
        assert(r.frames().take(0) =~= Seq::<u8>::empty());
        assert(r@ =~= Seq::<Slot>::empty());
        assert(r.prefix() =~= old(out)@);
        r
    }

    fn even_byte_id(&mut self, id: u8, immediate: bool) -> (r: u8)
        requires
            old(self).frame_offset <= 14,
        ensures
            r == id << 1 | 0x01,
            final(self).aux == if immediate {
                old(self).aux & !(1u8 << ((old(self).frame_offset / 2) as u8))
            } else {
                old(self).aux | (1u8 << ((old(self).frame_offset / 2) as u8))
            },
            *final(self) == (StreamBuilder { aux: final(self).aux, ..*old(self) }),
    {
        let mask: u8 = 0x01u8 << ((self.frame_offset / 2) as u8);
        if immediate {
            self.aux = self.aux & !mask;
        } else {
            self.aux = self.aux | mask;
        }
        id << 1 | 0x01
    }

    fn even_byte_data(&mut self, data: u8) -> (r: u8)
        requires
            old(self).frame_offset <= 14,
        ensures
            r == data & 0xFE,
            final(self).aux == if data & 0x01 == 0 {
                old(self).aux & !(1u8 << ((old(self).frame_offset / 2) as u8))
            } else {
                old(self).aux | (1u8 << ((old(self).frame_offset / 2) as u8))
            },
            *final(self) == (StreamBuilder { aux: final(self).aux, ..*old(self) }),
    {
        let mask: u8 = 0x01u8 << ((self.frame_offset / 2) as u8);
        if data & 0x01 == 0 {
            self.aux = self.aux & !mask;
        } else {
            self.aux = self.aux | mask;
        }
        data & 0xFE
    }

    fn even_byte(&mut self, byte: ByteType, immediate: bool) -> (r: u8)
        requires
            old(self).frame_offset <= 14,
        ensures
            *final(self) == (StreamBuilder { aux: final(self).aux, ..*old(self) }),
            match byte {
                ByteType::Data(d) => r == d & 0xFE && final(self).aux == if d & 0x01 == 0 {
                    old(self).aux & !(1u8 << ((old(self).frame_offset / 2) as u8))
                } else {
                    old(self).aux | (1u8 << ((old(self).frame_offset / 2) as u8))
                },
                ByteType::Id(i) => r == i << 1 | 0x01 && final(self).aux == if immediate {
                    old(self).aux & !(1u8 << ((old(self).frame_offset / 2) as u8))
                } else {
                    old(self).aux | (1u8 << ((old(self).frame_offset / 2) as u8))
                },
            },
    {
        match byte {
            ByteType::Data(d) => self.even_byte_data(d),
            ByteType::Id(i) => self.even_byte_id(i, immediate),
        }
    }
}

/// The two AUX bytes agree in every bit but bit `k`.
spec fn same_but(a: u8, b: u8, k: u8) -> bool {
    forall|j: u8| j < 8 && j != k ==> (#[trigger] (b >> j)) & 1 == (a >> j) & 1
}

proof fn lemma_same_but(aux: u8, k: u8)
    requires
        k < 8,
    ensures
        same_but(aux, aux & !(1u8 << k), k),
        same_but(aux, aux | (1u8 << k), k),
{
    assert forall|j: u8| j < 8 && j != k implies (#[trigger] ((aux & !(1u8 << k)) >> j)) & 1 == (aux
        >> j) & 1 by {
        lemma_aux_bits(aux, k, j);
    }
    assert forall|j: u8| j < 8 && j != k implies (#[trigger] ((aux | (1u8 << k)) >> j)) & 1 == (aux
        >> j) & 1 by {
        lemma_aux_bits(aux, k, j);
    }
}

proof fn lemma_raw_slot_same(byte: u8, a: u8, b: u8, k: u8, p: int)
    requires
        same_but(a, b, k),
        0 <= p <= 14,
        p % 2 == 1 || p / 2 != k,
    ensures
        raw_slot(byte, b, p) == raw_slot(byte, a, p),
{
    if p % 2 == 0 {
        let j = (p / 2) as u8;
        assert((b >> j) & 1 == (a >> j) & 1);
    }
}

/// What `byte` reads as at an even position once the AUX bit of the
/// position is set as the builder sets it.
proof fn lemma_raw_slot_written(byte: ByteType, aux: u8, p: int, delayed: bool)
    requires
        0 <= p <= 14,
        p % 2 == 0,
        match byte {
            ByteType::Id(i) => i < 0x7F && (delayed ==> p != 14),
            ByteType::Data(_) => !delayed,
        },
    ensures
        ({
            let k = (p / 2) as u8;
            match byte {
                ByteType::Data(d) => raw_slot(
                    d & 0xFE,
                    if d & 0x01 == 0 {
                        aux & !(1u8 << k)
                    } else {
                        aux | (1u8 << k)
                    },
                    p,
                ) == Slot::Data(d),
                ByteType::Id(i) => raw_slot(
                    i << 1 | 0x01,
                    if delayed {
                        aux | (1u8 << k)
                    } else {
                        aux & !(1u8 << k)
                    },
                    p,
                ) == (Slot::Id { id: i, delayed }),
            }
        }),
{
    let k = (p / 2) as u8;
    lemma_aux_bits(aux, k, k);
    match byte {
        ByteType::Data(d) => {
            lemma_data_byte(d);
        },
        ByteType::Id(i) => {
            lemma_id_byte(i);
        },
    }
}

proof fn lemma_partial_push_even(
    f: Seq<u8>,
    base: int,
    fo: int,
    aux: u8,
    held: ByteType,
    byte: ByteType,
)
    requires
        0 <= fo,
        fo % 2 == 0,
    ensures
        partial_slots(f, base, fo + 1, aux, byte) == partial_slots(f, base, fo, aux, held).push(
            slot_of(byte),
        ),
{
    assert(partial_slots(f, base, fo + 1, aux, byte) =~= partial_slots(
        f,
        base,
        fo,
        aux,
        held,
    ).push(slot_of(byte)));
}

proof fn lemma_partial_pair(
    f: Seq<u8>,
    base: int,
    fo: int,
    aux: u8,
    held: ByteType,
    even: u8,
    odd: u8,
    aux2: u8,
    any: ByteType,
)
    requires
        0 <= base,
        1 <= fo <= 13,
        fo % 2 == 1,
        f.len() == base + fo - 1,
        same_but(aux, aux2, ((fo - 1) / 2) as u8),
    ensures
        partial_slots(f.push(even).push(odd), base, fo + 1, aux2, any) == partial_slots(
            f,
            base,
            fo,
            aux,
            held,
        ).drop_last().push(raw_slot(even, aux2, fo - 1)).push(Slot::Data(odd)),
{
    let f2 = f.push(even).push(odd);
    let a = partial_slots(f2, base, fo + 1, aux2, any);
    let b = partial_slots(f, base, fo, aux, held).drop_last().push(
        raw_slot(even, aux2, fo - 1),
    ).push(Slot::Data(odd));
    assert forall|p: int| 0 <= p < fo + 1 implies a[p] == b[p] by {
        if p < fo - 1 {
            assert(f2[base + p] == f[base + p]);
            lemma_raw_slot_same(f[base + p], aux, aux2, ((fo - 1) / 2) as u8, p);
        }
    }
    assert(a =~= b);
}

proof fn lemma_frame_slots(bytes: Seq<u8>, base: int, count: int)
    requires
        0 <= base,
        base % 16 == 0,
        0 <= count <= 15,
    ensures
        slots_upto(bytes, base + count) == slots_upto(bytes, base) + Seq::new(
            count as nat,
            |p: int| slot_in(bytes, base + p),
        ),
    decreases count,
{
    if count == 0 {
        assert(slots_upto(bytes, base) =~= slots_upto(bytes, base) + Seq::new(
            0,
            |p: int| slot_in(bytes, base + p),
        ));
    } else {
        lemma_frame_slots(bytes, base, count - 1);
        assert(slots_upto(bytes, base + count) =~= slots_upto(bytes, base) + Seq::new(
            count as nat,
            |p: int| slot_in(bytes, base + p),
        ));
    }
}

proof fn lemma_frame_close(
    f: Seq<u8>,
    base: int,
    aux: u8,
    held: ByteType,
    even: u8,
    aux2: u8,
)
    requires
        0 <= base,
        base % 16 == 0,
        f.len() == base + 14,
        same_but(aux, aux2, 7),
        aux2 & 0x80 == 0x80 ==> even & 0x01 != 0x01,
    ensures
        slots_upto(f.push(even).push(aux2), base + 16) == slots_upto(f, base) + partial_slots(
            f,
            base,
            14,
            aux,
            held,
        ).push(raw_slot(even, aux2, 14)),
        aux_bytes_valid(f.take(base)) ==> aux_bytes_valid(f.push(even).push(aux2)),
{
    let f2 = f.push(even).push(aux2);
    lemma_frame_slots(f2, base, 15);
    assert(slots_upto(f2, base + 16) == slots_upto(f2, base + 15));
    assert forall|o: int| 0 <= o < base && o % 16 != 15 implies slot_in(f2, o) == slot_in(f, o) by {
        assert(chunk(f2, o / 16) =~= chunk(f, o / 16));
    }
    lemma_slots_upto_same(f2, f, base);
    let a = Seq::new(15, |p: int| slot_in(f2, base + p));
    let b = partial_slots(f, base, 14, aux, held).push(raw_slot(even, aux2, 14));
    assert forall|p: int| 0 <= p < 15 implies a[p] == b[p] by {
        lemma_slot_in_raw(f2, base + p);
        if p < 14 {
            assert(f2[base + p] == f[base + p]);
            lemma_raw_slot_same(f[base + p], aux, aux2, 7, p);
        }
    }
    assert(a =~= b);
    if aux_bytes_valid(f.take(base)) {
        assert forall|k: int| 0 <= k < f2.len() / 16 implies !aux_invalid(
            #[trigger] chunk(f2, k),
        ) by {
            if k < base / 16 {
                assert(chunk(f2, k) =~= chunk(f.take(base), k));
            } else {
                assert(chunk(f2, k)[15] == aux2);
                assert(chunk(f2, k)[14] == even);
            }
        }
    }
}

proof fn lemma_write_pair(
    f: Seq<u8>,
    base: int,
    fo: int,
    aux: u8,
    held: ByteType,
    byte: ByteType,
    even: u8,
    odd: u8,
    aux2: u8,
    any: ByteType,
)
    requires
        0 <= base,
        base % 16 == 0,
        1 <= fo <= 13,
        fo % 2 == 1,
        f.len() == base + fo - 1,
        match byte {
            ByteType::Id(i) => {
                &&& i < 0x7F
                &&& held is Data
                &&& even == i << 1 | 0x01
                &&& aux2 == aux | (1u8 << (((fo - 1) / 2) as u8))
                &&& odd == held->Data_0
            },
            ByteType::Data(d) => {
                &&& odd == d
                &&& match held {
                    ByteType::Data(e) => even == e & 0xFE && aux2 == if e & 0x01 == 0 {
                        aux & !(1u8 << (((fo - 1) / 2) as u8))
                    } else {
                        aux | (1u8 << (((fo - 1) / 2) as u8))
                    },
                    ByteType::Id(i) => i < 0x7F && even == i << 1 | 0x01 && aux2 == aux & !(1u8 << ((
                    (fo - 1) / 2) as u8)),
                }
            },
        },
    ensures
        slots_upto(f.push(even).push(odd), base) + partial_slots(
            f.push(even).push(odd),
            base,
            fo + 1,
            aux2,
            any,
        ) == push_byte_type(slots_upto(f, base) + partial_slots(f, base, fo, aux, held), byte),
        aux_bytes_valid(f.take(base)) ==> aux_bytes_valid(f.push(even).push(odd).take(base)),
{
    let f2 = f.push(even).push(odd);
    let k = ((fo - 1) / 2) as u8;
    let before = slots_upto(f, base) + partial_slots(f, base, fo, aux, held);
    lemma_slots_len(f, base);
    lemma_same_but(aux, k);
    lemma_partial_pair(f, base, fo, aux, held, even, odd, aux2, any);
    assert(f2.take(base) =~= f.take(base));
    assert forall|o: int| 0 <= o < base && o % 16 != 15 implies slot_in(f2, o) == slot_in(f, o) by {
        assert(chunk(f2, o / 16) =~= chunk(f, o / 16));
    }
    lemma_slots_upto_same(f2, f, base);
    let part = partial_slots(f, base, fo, aux, held);
    assert(part.last() == slot_of(held));
    assert(before.len() % 15 == fo);
    match byte {
        ByteType::Id(i) => {
            lemma_raw_slot_written(byte, aux, fo - 1, true);
            assert(before.drop_last() =~= slots_upto(f, base) + part.drop_last());
            assert(before.last() == part.last());
            assert(slots_upto(f2, base) + part.drop_last().push(
                Slot::Id { id: i, delayed: true },
            ).push(Slot::Data(odd)) =~= before.drop_last().push(
                Slot::Id { id: i, delayed: true },
            ).push(before.last()));
        },
        ByteType::Data(d) => {
            lemma_raw_slot_written(held, aux, fo - 1, false);
            assert(part.drop_last().push(slot_of(held)) =~= part);
            assert(slots_upto(f2, base) + part.push(Slot::Data(d)) =~= before.push(
                Slot::Data(d),
            ));
        },
    }
}

/// What emitting a byte has to keep and to establish.
spec fn pushed(before: &StreamBuilder, after: &StreamBuilder, byte: ByteType) -> bool {
    &&& after.inv()
    &&& after@ == push_byte_type(before@, byte)
    &&& byte is Data ==> after.wf()
    &&& after.total <= before.total + 2
    &&& after.current_id == before.current_id
    &&& after.next_id == before.next_id
    &&& after.prefix() == before.prefix()
}

/// What emitting a byte asks for.
spec fn can_push(b: &StreamBuilder, byte: ByteType) -> bool {
    &&& b.inv()
    &&& b.total + 2 <= usize::MAX
    &&& match byte {
        ByteType::Id(i) => i < 0x7F && (b.frame_offset % 2 == 1 ==> b.even_byte is Data),
        ByteType::Data(_) => true,
    }
}

impl<'a> StreamBuilder<'a> {
    fn hold_back(&mut self, byte: ByteType)
        requires
            can_push(old(self), byte),
            old(self).frame_offset % 2 == 0,
            old(self).frame_offset < 14,
        ensures
            pushed(old(self), final(self), byte),
            *final(final(self).out) == *final(old(self).out),
    {
        reveal(StreamBuilder::slots);
        proof {
            lemma_slots_len(self.frames(), self.base());
            lemma_partial_push_even(
                self.frames(),
                self.base(),
                self.frame_offset as int,
                self.aux,
                self.even_byte,
                byte,
            );
        }
        self.even_byte = byte;
        self.frame_offset += 1;
        assert(self.frames() == old(self).frames());
        assert(self.prefix() == old(self).prefix());
    }

    fn close_frame(&mut self, byte: ByteType)
        requires
            can_push(old(self), byte),
            old(self).frame_offset == 14,
        ensures
            pushed(old(self), final(self), byte),
            *final(final(self).out) == *final(old(self).out),
    {
        reveal(StreamBuilder::slots);
        let ghost f = self.frames();
        let ghost base = self.base();
        let ghost aux = self.aux;
        let ghost held = self.even_byte;
        let even = self.even_byte(byte, true);
        let aux_byte = self.aux;
        proof {
            lemma_slots_len(f, base);
            lemma_same_but(aux, 7);
            lemma_raw_slot_written(byte, aux, 14, false);
            lemma_aux_bits(aux, 7, 7);
            match byte {
                ByteType::Data(d) => {
                    lemma_data_byte(d);
                },
                ByteType::Id(i) => {},
            }
            lemma_frame_close(f, base, aux, held, even, aux_byte);
        }
        self.out.push(even);
        self.out.push(aux_byte);
        self.total += 2;
        self.frame_offset = 0;
        self.aux = 0;
        proof {
            assert(self.frames() =~= f.push(even).push(aux_byte));
            assert(self.frames().take(self.base()) =~= self.frames());
            assert(partial_slots(self.frames(), self.base(), 0, 0, self.even_byte)
                =~= Seq::<Slot>::empty());
            assert(self@ =~= slots_upto(self.frames(), base + 16));
            assert(old(self)@.push(slot_of(byte)) =~= slots_upto(f, base) + partial_slots(
                f,
                base,
                14,
                aux,
                held,
            ).push(slot_of(byte)));
            assert(self.inv());
            assert(self@ == push_byte_type(old(self)@, byte));
            assert(byte is Data ==> self.wf());
            assert(self.prefix() =~= old(self).prefix());
        }
    }

    fn write_pair(&mut self, byte: ByteType)
        requires
            can_push(old(self), byte),
            old(self).frame_offset % 2 == 1,
        ensures
            pushed(old(self), final(self), byte),
            *final(final(self).out) == *final(old(self).out),
    {
        let ghost f = self.frames();
        let ghost base = self.base();
        let ghost fo = self.frame_offset as int;
        let ghost aux = self.aux;
        let held_byte = self.even_byte;
        let (even, odd) = match byte {
            ByteType::Id(i) => {
                let even = self.even_byte_id(i, false);
                let odd = match held_byte {
                    ByteType::Data(d) => d,
                    ByteType::Id(_) => 0,
                };
                (even, odd)
            },
            ByteType::Data(d) => {
                let even = self.even_byte(held_byte, true);
                (even, d)
            },
        };
        let ghost aux2 = self.aux;
        self.out.push(even);
        self.out.push(odd);
        self.total += 2;
        self.frame_offset += 1;
        proof {
            reveal(StreamBuilder::slots);
            lemma_write_pair(f, base, fo, aux, held_byte, byte, even, odd, aux2, self.even_byte);
            assert(self.frames() =~= f.push(even).push(odd));
            assert(self.prefix() =~= old(self).prefix());
        }
    }

    /// Emits `byte`.  A byte for an even position is held back; one for an
    /// odd position is written together with the byte held back, which
    /// makes room for an ID where `byte` is one.  The byte for the last
    /// position of a frame is written together with the AUX byte.
    fn push_byte(&mut self, byte: ByteType)
        requires
            can_push(old(self), byte),
        ensures
            pushed(old(self), final(self), byte),
            *final(final(self).out) == *final(old(self).out),
    {
        if self.frame_offset % 2 == 0 {
            if self.frame_offset < 14 {
                self.hold_back(byte);
            } else {
                self.close_frame(byte);
            }
        } else {
            self.write_pair(byte);
        }
    }
}

proof fn lemma_push_data_step(slots: Seq<Slot>, data: Seq<u8>, count: int)
    requires
        0 <= count < data.len(),
    ensures
        push_data(slots, data.take(count + 1)) == push_data(slots, data.take(count)).push(
            Slot::Data(data[count]),
        ),
{
    assert(push_data(slots, data.take(count + 1)) =~= push_data(slots, data.take(count)).push(
        Slot::Data(data[count]),
    ));
}

impl<'a> StreamBuilder<'a> {
    /// Sets the stream ID of the data to come.  Nothing is written before
    /// the next byte of data; an ID set before that replaces this one.
    pub fn id(&mut self, id: StreamId) -> (r: Result<&mut Self, Error>)
        requires
            old(self).wf(),
        ensures
            match r {
                Ok(s) => {
                    &&& stream_id_value(id) < 0x7F
                    &&& *s == (StreamBuilder { next_id: Some(stream_id_value(id)), ..*old(self) })
                    &&& s.wf()
                    &&& s@ == old(self)@
                    &&& s.pending_id() == Some(stream_id_value(id))
                    &&& s.current_id() == old(self).current_id()
                    &&& s.total() == old(self).total()
                    &&& s.prefix() == old(self).prefix()
                    &&& *final(self) == *final(s)
                },
                Err(e) => {
                    &&& stream_id_value(id) >= 0x7F
                    &&& e == Error::InvalidStreamId(stream_id_value(id), old(self).total())
                    &&& *final(self) == *old(self)
                },
            },
    {
        proof {
            reveal(StreamBuilder::slots);
        }
        let id_value = u8::from(id);
        if id_value >= 0x7F {
            return Err(Error::InvalidStreamId(id_value, self.total));
        }
        self.next_id = Some(id_value);
        Ok(self)
    }

    fn push_data_bytes(&mut self, data: &[u8])
        requires
            old(self).inv(),
            data@.len() > 0,
            old(self).total + 2 * data@.len() <= usize::MAX,
        ensures
            final(self).wf(),
            final(self)@ == push_data(old(self)@, data@),
            final(self).total <= old(self).total + 2 * data@.len(),
            final(self).current_id == old(self).current_id,
            final(self).next_id == old(self).next_id,
            final(self).prefix() == old(self).prefix(),
            *final(final(self).out) == *final(old(self).out),
    {
        let mut i: usize = 0;
        assert(push_data(self@, data@.take(0)) =~= self@);
        while i < data.len()
            invariant
                i <= data@.len(),
                data@.len() > 0,
                old(self).total + 2 * data@.len() <= usize::MAX,
                self.inv(),
                i > 0 ==> self.wf(),
                self@ == push_data(old(self)@, data@.take(i as int)),
                self.total <= old(self).total + 2 * i,
                self.current_id == old(self).current_id,
                self.next_id == old(self).next_id,
                self.prefix() == old(self).prefix(),
                *final(self.out) == *final(old(self).out),
            decreases data@.len() - i,
        {
            proof {
                lemma_push_data_step(old(self)@, data@, i as int);
            }
            self.push_byte(ByteType::Data(data[i]));
            i = i + 1;
        }
        assert(data@.take(i as int) =~= data@);
    }

    /// Emits `data` under the stream ID set last.  If that ID has not been
    /// written yet, it is written first.  Nothing happens where `data` is
    /// empty.
    pub fn data(&mut self, data: &[u8]) -> (r: Result<&mut Self, Error>)
        requires
            old(self).wf(),
            old(self).total() + 2 * data@.len() + 2 <= usize::MAX,
        ensures
            match r {
                Ok(s) => {
                    &&& s.wf()
                    &&& s@ == push_id_data(old(self)@, old(self).pending_id(), data@)
                    &&& s.pending_id() == if data@.len() == 0 {
                        old(self).pending_id()
                    } else {
                        None
                    }
                    &&& s.current_id() == if data@.len() > 0 && old(self).pending_id() is Some {
                        old(self).pending_id()->Some_0
                    } else {
                        old(self).current_id()
                    }
                    &&& s.total() <= old(self).total() + 2 * data@.len() + 2
                    &&& s.prefix() == old(self).prefix()
                    &&& *final(self) == *final(s)
                },
                Err(e) => false,
            },
    {
        proof {
            reveal(StreamBuilder::slots);
        }
        // Easy case:
        if data.len() == 0 {
            return Ok(self);
        }
        match self.next_id {
            Some(id) => {
                self.push_byte(ByteType::Id(id));
                self.current_id = id;
                self.next_id = None;
            },
            None => {},
        }
        self.push_data_bytes(data);
        Ok(self)
    }

    /// Sets the stream ID and emits `data` under it.
    pub fn id_data(&mut self, id: StreamId, data: &[u8]) -> (r: Result<&mut Self, Error>)
        requires
            old(self).wf(),
            old(self).total() + 2 * data@.len() + 2 <= usize::MAX,
        ensures
            match r {
                Ok(s) => {
                    &&& stream_id_value(id) < 0x7F
                    &&& s.wf()
                    &&& s@ == push_id_data(old(self)@, Some(stream_id_value(id)), data@)
                    &&& s.pending_id() == if data@.len() == 0 {
                        Some(stream_id_value(id))
                    } else {
                        None
                    }
                    &&& s.current_id() == if data@.len() > 0 {
                        stream_id_value(id)
                    } else {
                        old(self).current_id()
                    }
                    &&& s.total() <= old(self).total() + 2 * data@.len() + 2
                    &&& s.prefix() == old(self).prefix()
                    &&& *final(self) == *final(s)
                },
                Err(e) => {
                    &&& stream_id_value(id) >= 0x7F
                    &&& e == Error::InvalidStreamId(stream_id_value(id), old(self).total())
                    &&& *final(self) == *old(self)
                },
            },
    {
        match self.id(id) {
            Ok(s) => s.data(data),
            Err(e) => Err(e),
        }
    }

    /// Does nothing: frame synchronization packets are put in by the layer
    /// that carries the frames.
    pub fn frame_sync(&mut self) -> (r: Result<&mut Self, Error>)
        ensures
            match r {
                Ok(s) => *s == *old(self) && *final(self) == *final(s),
                Err(e) => false,
            },
    {
        Ok(self)
    }

    /// Does nothing: halfword synchronization packets are put in by the
    /// layer that carries the frames.
    pub fn halfword_sync(&mut self) -> (r: Result<&mut Self, Error>)
        ensures
            match r {
                Ok(s) => *s == *old(self) && *final(self) == *final(s),
                Err(e) => false,
            },
    {
        Ok(self)
    }
}

impl<'a> StreamBuilder<'a> {
    /// The position in the frame of what comes next is the number of slots
    /// emitted, counted from the last whole frame.
    proof fn lemma_position(&self)
        requires
            self.inv(),
        ensures
            self@.len() % 15 == self.frame_offset,
    {
        reveal(StreamBuilder::slots);
        lemma_slots_len(self.frames(), self.base());
    }

    /// Emits zero data up to the end of the frame.
    fn fill_frame(&mut self)
        requires
            old(self).inv(),
            old(self).total + 32 <= usize::MAX,
        ensures
            final(self).inv(),
            final(self).frame_offset == 0,
            final(self)@ == old(self)@ + zero_slots(((15 - old(self).frame_offset) % 15) as nat),
            final(self).total <= old(self).total + 30,
            final(self).current_id == old(self).current_id,
            final(self).next_id == old(self).next_id,
            final(self).prefix() == old(self).prefix(),
            *final(final(self).out) == *final(old(self).out),
    {
        let start = self.frame_offset;
        let mut count: usize = 0;
        assert(self@ + zero_slots(0) =~= self@);
        while self.frame_offset != 0
            invariant
                self.inv(),
                start == old(self).frame_offset,
                start <= 14,
                start == 0 ==> self.frame_offset == 0 && count == 0,
                start != 0 ==> (self.frame_offset == start + count || (self.frame_offset == 0
                    && start + count == 15)),
                self@ == old(self)@ + zero_slots(count as nat),
                self.total <= old(self).total + 2 * count,
                old(self).total + 32 <= usize::MAX,
                self.current_id == old(self).current_id,
                self.next_id == old(self).next_id,
                self.prefix() == old(self).prefix(),
                *final(self.out) == *final(old(self).out),
                start + count <= 15,
            decreases 15 - count,
        {
            let ghost before = *self;
            self.push_byte(ByteType::Data(0));
            count = count + 1;
            proof {
                before.lemma_position();
                self.lemma_position();
                assert(old(self)@ + zero_slots(count as nat) =~= (old(self)@ + zero_slots(
                    (count - 1) as nat,
                )).push(Slot::Data(0)));
            }
        }
    }

    /// The whole frames among the bytes written have valid AUX bytes, and a
    /// parser reads in them the first slots emitted, fifteen for each frame.
    pub proof fn lemma_whole_frames(&self)
        requires
            self.wf(),
        ensures
            ({
                let whole = self.frames().len() as int / 16 * 16;
                &&& aux_bytes_valid(self.frames().take(whole))
                &&& whole / 16 * 15 <= self@.len()
                &&& slots_upto(self.frames(), whole) == self@.take(whole / 16 * 15)
            }),
    {
        reveal(StreamBuilder::slots);
        let f = self.frames();
        let base = self.base();
        lemma_slots_len(f, base);
        assert(f.len() as int / 16 * 16 == base);
        assert(self@.take(base / 16 * 15) =~= slots_upto(f, base));
    }

    /// What the builder has emitted ends where data can follow.
    pub proof fn lemma_settled(&self)
        requires
            self.wf(),
        ensures
            settled(self@),
    {
        reveal(StreamBuilder::slots);
        self.lemma_position();
        let f = self.frames();
        let base = self.base();
        let fo = self.frame_offset as int;
        lemma_slots_len(f, base);
        let part = partial_slots(f, base, fo, self.aux, self.even_byte);
        if fo > 0 {
            assert(self@.last() == part[fo - 1]);
        } else if base > 0 {
            assert(self@ =~= slots_upto(f, base));
            assert(slots_upto(f, base) == slots_upto(f, base - 1));
            assert(slots_upto(f, base - 1) == slots_upto(f, base - 2).push(slot_in(f, base - 2)));
            assert((base - 2) / 16 == base / 16 - 1 && (base - 2) % 16 == 14);
            lemma_last_id_is_immediate(chunk(f, base / 16 - 1));
        }
    }

    /// Completes a frame that is partly written: the null ID and zero data
    /// go to the positions that are left.  The ID that was in effect, or was
    /// set for the data to come, is set again for the data to come, unless
    /// it is the null ID.  Does nothing between two frames.
    pub fn pad_frame(&mut self) -> (r: Result<&mut Self, Error>)
        requires
            old(self).wf(),
            old(self).total() + 34 <= usize::MAX,
        ensures
            match r {
                Ok(s) => {
                    &&& s.wf()
                    &&& s@ == pad_slots(old(self)@)
                    &&& s@.len() % 15 == 0
                    &&& s.total() <= old(self).total() + 32
                    &&& s.prefix() == old(self).prefix()
                    &&& old(self)@.len() % 15 == 0 ==> *s == *old(self)
                    &&& old(self)@.len() % 15 != 0 ==> {
                        let restore = match old(self).pending_id() {
                            Some(i) => i,
                            None => old(self).current_id(),
                        };
                        &&& s.current_id() == if old(self)@.len() % 15 == 14 {
                            old(self).current_id()
                        } else {
                            0
                        }
                        &&& s.pending_id() == if restore != 0 {
                            Some(restore)
                        } else if old(self)@.len() % 15 == 14 {
                            old(self).pending_id()
                        } else {
                            None
                        }
                    }
                    &&& *final(self) == *final(s)
                },
                Err(e) => false,
            },
    {
        proof {
            reveal(StreamBuilder::slots);
            self.lemma_position();
        }
        // Easy case:
        if self.frame_offset == 0 {
            return Ok(self);
        }
        // Use this id after padding:
        let next_id = match self.next_id {
            Some(i) => i,
            None => self.current_id,
        };
        let last = self.frame_offset == 14;
        self.push_byte(ByteType::Id(0));
        if !last {
            self.current_id = 0;
            self.next_id = None;
        }
        proof {
            self.lemma_position();
        }
        self.fill_frame();
        if next_id != 0 {
            self.next_id = Some(next_id);
        }
        Ok(self)
    }

    /// Completes the last frame, as [`StreamBuilder::pad_frame`] does, and
    /// returns the number of bytes written to the sink, which are whole
    /// frames with valid AUX bytes in which a parser reads the slots
    /// emitted.  There is one such sequence of bytes.
    pub fn finish(&mut self) -> (r: Result<usize, Error>)
        requires
            old(self).wf(),
            old(self).total() + 34 <= usize::MAX,
        ensures
            r == Ok::<usize, Error>(final(self).total()),
            final(self).wf(),
            final(self)@ == pad_slots(old(self)@),
            final(self).prefix() == old(self).prefix(),
            final(self).sink() == final(self).prefix() + final(self).frames(),
            final(self).frames().len() == final(self).total(),
            final(self).frames().len() % 16 == 0,
            aux_bytes_valid(final(self).frames()),
            slots_upto(final(self).frames(), final(self).frames().len() as int) == final(self)@,
    {
        match self.pad_frame() {
            Ok(s) => {
                proof {
                    s.lemma_complete();
                    s.lemma_sink();
                }
                Ok(s.total)
            },
            Err(e) => Err(e),
        }
    }
}

} // verus!
