//! Builds TWP frames in memory.
//!
//! [`set_stream_id`] and [`set_stream_data`] write one position of a frame
//! in a buffer of frames.  [`FrameBuilder`] writes positions one after the
//! other and allocates the frames as it goes.  What has been written is
//! described by the slots that a parser reads back from the bytes, see
//! `slot_in` and `slots_upto` in the frame module; together with the AUX
//! bytes being valid, the slots leave no choice of bytes.

use crate::twp::frame::{
    aux_bytes_valid,
    aux_invalid,
    aux_pos,
    chunk,
    lemma_aux_bits,
    lemma_aux_masked,
    lemma_data_byte,
    lemma_id_byte,
    lemma_slot_in_raw,
    lemma_slots_len,
    lemma_slots_upto_same,
    lemma_slots_upto_zero,
    slot_in,
    slots_upto,
    zero_slots,
    Slot,
    FSYNC,
};
use vstd::prelude::*;

verus! {

/// Why a frame builder refuses what it is asked; each error comes with the
/// offset at which the value was to be written.
#[derive(Debug, PartialEq, Eq, Copy, Clone)]
pub enum FrameBuilderError {
    /// The offset does not name a position that can hold the value.
    InvalidOffset(usize),
    /// The stream ID is not below `0x7F`.
    InvalidStreamId(usize, u8),
    /// A delayed ID was asked for at the last position of a frame.
    InvalidDelayedId(usize, u8),
    /// Two IDs in a row, with no data in between.
    MissingData(usize),
}

/// The bit of the AUX byte that belongs to the even offset `offset`.
pub open spec fn aux_mask(offset: int) -> u8 {
    1u8 << (((offset % 16) / 2) as u8)
}

/// Why an ID cannot be written at `offset` of `len` bytes of frames, if it
/// cannot.
pub open spec fn id_error(len: int, offset: usize, id: u8, immediate: bool) -> Option<
    FrameBuilderError,
> {
    if offset % 2 != 0 || offset >= len {
        Some(FrameBuilderError::InvalidOffset(offset))
    } else if id >= 0x7F {
        Some(FrameBuilderError::InvalidStreamId(offset, id))
    } else if !immediate && offset % 16 == 14 {
        Some(FrameBuilderError::InvalidDelayedId(offset, id))
    } else {
        None
    }
}

/// The frames `frames` with the ID `id` written at `offset`: the byte there
/// holds the ID above a low bit of one, and its AUX bit is set for a delayed
/// ID and cleared for an immediate one.
pub open spec fn with_id(frames: Seq<u8>, offset: int, id: u8, immediate: bool) -> Seq<u8> {
    let a = aux_pos(offset);
    frames.update(offset, id << 1 | 0x01).update(
        a,
        if immediate {
            frames[a] & !aux_mask(offset)
        } else {
            frames[a] | aux_mask(offset)
        },
    )
}

/// The frames `frames` with the data byte `data` written at `offset`: at an
/// odd offset the byte as it is; at an even one the byte without its lowest
/// bit, which goes to the AUX bit of the offset.
pub open spec fn with_data(frames: Seq<u8>, offset: int, data: u8) -> Seq<u8> {
    if offset % 2 == 0 {
        let a = aux_pos(offset);
        frames.update(offset, data & 0xFE).update(
            a,
            if data & 0x01 == 0 {
                frames[a] & !aux_mask(offset)
            } else {
                frames[a] | aux_mask(offset)
            },
        )
    } else {
        frames.update(offset, data)
    }
}

/// The bytes `a` and `b` are frames that differ at `offset` at most, and
/// in the AUX bit that belongs to `offset`.
spec fn rewritten(a: Seq<u8>, b: Seq<u8>, offset: int) -> bool {
    &&& a.len() == b.len()
    &&& a.len() % 16 == 0
    &&& 0 <= offset < a.len()
    &&& offset % 16 != 15
    &&& forall|i: int|
        0 <= i < a.len() && i != offset && i != aux_pos(offset) ==> #[trigger] b[i] == a[i]
    &&& if offset % 2 == 0 {
        forall|j: u8|
            j < 8 && j != ((offset % 16) / 2) as u8 ==> (#[trigger] (b[aux_pos(offset)] >> j)) & 1
                == (a[aux_pos(offset)] >> j) & 1
    } else {
        b[aux_pos(offset)] == a[aux_pos(offset)]
    }
}

proof fn lemma_with_data_rewrites(frames: Seq<u8>, offset: int, data: u8)
    requires
        frames.len() % 16 == 0,
        0 <= offset < frames.len(),
        offset % 16 != 15,
    ensures
        rewritten(frames, with_data(frames, offset, data), offset),
{
    let a = aux_pos(offset);
    let k = ((offset % 16) / 2) as u8;
    if offset % 2 == 0 {
        assert forall|j: u8| j < 8 && j != k implies (#[trigger] (with_data(
            frames,
            offset,
            data,
        )[a] >> j)) & 1 == (frames[a] >> j) & 1 by {
            lemma_aux_bits(frames[a], k, j);
        }
    }
}

proof fn lemma_with_id_rewrites(frames: Seq<u8>, offset: usize, id: u8, immediate: bool)
    requires
        frames.len() % 16 == 0,
        id_error(frames.len() as int, offset, id, immediate) is None,
    ensures
        rewritten(frames, with_id(frames, offset as int, id, immediate), offset as int),
{
    let a = aux_pos(offset as int);
    let k = ((offset % 16) / 2) as u8;
    assert forall|j: u8| j < 8 && j != k implies (#[trigger] (with_id(
        frames,
        offset as int,
        id,
        immediate,
    )[a] >> j)) & 1 == (frames[a] >> j) & 1 by {
        lemma_aux_bits(frames[a], k, j);
    }
}

/// Rewriting one position changes nothing of what a parser reads at the
/// others.
proof fn lemma_rewritten_slots(a: Seq<u8>, b: Seq<u8>, offset: int)
    requires
        rewritten(a, b, offset),
    ensures
        forall|o: int|
            0 <= o < a.len() && o % 16 != 15 && o != offset ==> slot_in(b, o) == #[trigger] slot_in(
                a,
                o,
            ),
{
    assert forall|o: int| 0 <= o < a.len() && o % 16 != 15 && o != offset implies slot_in(b, o)
        == #[trigger] slot_in(a, o) by {
        lemma_slot_in_raw(b, o);
        lemma_slot_in_raw(a, o);
        if o % 2 == 0 && aux_pos(o) == aux_pos(offset) {
            let j = ((o % 16) / 2) as u8;
            assert((b[aux_pos(offset)] >> j) & 1 == (a[aux_pos(offset)] >> j) & 1);
        }
    }
}

/// Rewriting one position leaves the AUX bytes valid, where the frame
/// rewritten has a valid one afterwards.
proof fn lemma_rewritten_valid(a: Seq<u8>, b: Seq<u8>, offset: int)
    requires
        rewritten(a, b, offset),
        aux_bytes_valid(a),
        !(b[aux_pos(offset)] & 0x80 == 0x80 && b[aux_pos(offset) - 1] & 0x01 == 0x01),
    ensures
        aux_bytes_valid(b),
{
    assert forall|i: int| 0 <= i < b.len() / 16 implies !aux_invalid(#[trigger] chunk(b, i)) by {
        assert(!aux_invalid(chunk(a, i)));
        if i == offset / 16 {
            assert(chunk(b, i)[15] == b[aux_pos(offset)]);
            assert(chunk(b, i)[14] == b[aux_pos(offset) - 1]);
        } else {
            assert(chunk(b, i) =~= chunk(a, i));
        }
    }
}

/// Writing a data byte makes a parser read that byte at the offset, and
/// changes nothing of what it reads elsewhere.
pub proof fn lemma_with_data_slot(frames: Seq<u8>, offset: int, data: u8)
    requires
        frames.len() % 16 == 0,
        0 <= offset < frames.len(),
        offset % 16 != 15,
    ensures
        with_data(frames, offset, data).len() == frames.len(),
        slot_in(with_data(frames, offset, data), offset) == Slot::Data(data),
        forall|o: int|
            0 <= o < frames.len() && o % 16 != 15 && o != offset ==> slot_in(
                with_data(frames, offset, data),
                o,
            ) == #[trigger] slot_in(frames, o),
        aux_bytes_valid(frames) ==> aux_bytes_valid(with_data(frames, offset, data)),
{
    let f2 = with_data(frames, offset, data);
    let a = aux_pos(offset);
    let k = ((offset % 16) / 2) as u8;
    lemma_with_data_rewrites(frames, offset, data);
    lemma_rewritten_slots(frames, f2, offset);
    lemma_slot_in_raw(f2, offset);
    lemma_data_byte(data);
    if offset % 2 == 0 {
        lemma_aux_bits(frames[a], k, k);
    }
    if aux_bytes_valid(frames) {
        assert(!aux_invalid(chunk(frames, offset / 16)));
        assert(chunk(frames, offset / 16)[15] == frames[a]);
        assert(chunk(frames, offset / 16)[14] == frames[a - 1]);
        lemma_rewritten_valid(frames, f2, offset);
    }
}

/// Writing an ID makes a parser read that ID at the offset, delayed or
/// immediate as asked, and changes nothing of what it reads elsewhere.
pub proof fn lemma_with_id_slot(frames: Seq<u8>, offset: usize, id: u8, immediate: bool)
    requires
        frames.len() % 16 == 0,
        id_error(frames.len() as int, offset, id, immediate) is None,
    ensures
        with_id(frames, offset as int, id, immediate).len() == frames.len(),
        slot_in(with_id(frames, offset as int, id, immediate), offset as int) == (Slot::Id {
            id,
            delayed: !immediate,
        }),
        forall|o: int|
            0 <= o < frames.len() && o % 16 != 15 && o != offset ==> slot_in(
                with_id(frames, offset as int, id, immediate),
                o,
            ) == #[trigger] slot_in(frames, o),
        aux_bytes_valid(frames) ==> aux_bytes_valid(with_id(frames, offset as int, id, immediate)),
{
    let f2 = with_id(frames, offset as int, id, immediate);
    let a = aux_pos(offset as int);
    let k = ((offset % 16) / 2) as u8;
    lemma_with_id_rewrites(frames, offset, id, immediate);
    lemma_rewritten_slots(frames, f2, offset as int);
    lemma_slot_in_raw(f2, offset as int);
    lemma_aux_bits(frames[a], k, k);
    lemma_id_byte(id);
    if aux_bytes_valid(frames) {
        let i = offset as int / 16;
        assert(!aux_invalid(chunk(frames, i)));
        assert(chunk(frames, i)[15] == frames[a]);
        assert(chunk(frames, i)[14] == frames[a - 1]);
        lemma_rewritten_valid(frames, f2, offset as int);
    }
}

/// Writes the stream ID `id` at `offset` of `frames`, as an immediate or a
/// delayed change.  The offset has to be an even one inside `frames`, the
/// ID below `0x7F`, and a delayed ID cannot stand at the last position of a
/// frame.  On error `frames` is left as it was.  The frame that holds
/// `offset` has to be there up to its AUX byte.
pub fn set_stream_id(frames: &mut [u8], offset: usize, id: u8, immediate: bool) -> (r: Result<
    (),
    FrameBuilderError,
>)
    requires
        offset < old(frames)@.len() ==> aux_pos(offset as int) < old(frames)@.len(),
    ensures
        match id_error(old(frames)@.len() as int, offset, id, immediate) {
            Some(e) => r == Err::<(), FrameBuilderError>(e) && final(frames)@ == old(frames)@,
            None => r is Ok && final(frames)@ == with_id(
                old(frames)@,
                offset as int,
                id,
                immediate,
            ),
        },
{
    if offset % 2 != 0 || offset >= frames.len() {
        return Err(FrameBuilderError::InvalidOffset(offset));
    }
    if id >= 0x7f {
        return Err(FrameBuilderError::InvalidStreamId(offset, id));
    }
    if immediate == false && offset % 16 == 14 {
        return Err(FrameBuilderError::InvalidDelayedId(offset, id));
    }
    let aux_offset = (offset / 16) * 16 + 15;
    frames[offset] = id << 1 | 0x01;
    let mask: u8 = 0x01u8 << (((offset % 16) / 2) as u8);
    if immediate {
        frames[aux_offset] = frames[aux_offset] & !mask;
    } else {
        frames[aux_offset] = frames[aux_offset] | mask;
    }
    assert(frames@ =~= with_id(old(frames)@, offset as int, id, immediate));
    Ok(())
}

/// Writes the data byte `data` at `offset` of `frames`.  The offset has to
/// be inside `frames` and not that of an AUX byte.  On error `frames` is
/// left as it was.  The frame that holds `offset` has to be there up to its
/// AUX byte.
pub fn set_stream_data(frames: &mut [u8], offset: usize, data: u8) -> (r: Result<
    (),
    FrameBuilderError,
>)
    requires
        offset < old(frames)@.len() ==> aux_pos(offset as int) < old(frames)@.len(),
    ensures
        if offset % 16 == 15 || offset >= old(frames)@.len() {
            &&& r == Err::<(), FrameBuilderError>(FrameBuilderError::InvalidOffset(offset))
            &&& final(frames)@ == old(frames)@
        } else {
            r is Ok && final(frames)@ == with_data(old(frames)@, offset as int, data)
        },
{
    if offset % 16 == 15 || offset >= frames.len() {
        return Err(FrameBuilderError::InvalidOffset(offset));
    }
    if offset % 2 == 0 {
        let aux_offset = offset - (offset % 16) + 15;
        frames[offset] = data & 0xFE;
        let mask: u8 = 0x01u8 << (((offset % 16) / 2) as u8);
        if data & 0x01 == 0 {
            frames[aux_offset] = frames[aux_offset] & !mask;
        } else {
            frames[aux_offset] = frames[aux_offset] | mask;
        }
    } else {
        frames[offset] = data;
    }
    assert(frames@ =~= with_data(old(frames)@, offset as int, data));
    Ok(())
}

/// The offset that follows `offset` when the AUX byte is skipped.
pub open spec fn next_offset(offset: int) -> int {
    if offset % 16 == 14 {
        offset + 2
    } else {
        offset + 1
    }
}

proof fn lemma_appended_frame(old_bytes: Seq<u8>, bytes: Seq<u8>)
    requires
        old_bytes.len() % 16 == 0,
        bytes.len() == old_bytes.len() + 16,
        bytes.subrange(0, old_bytes.len() as int) == old_bytes,
        forall|i: int| old_bytes.len() <= i < bytes.len() ==> bytes[i] == 0,
    ensures
        forall|o: int|
            0 <= o < old_bytes.len() && o % 16 != 15 ==> slot_in(bytes, o) == #[trigger] slot_in(
                old_bytes,
                o,
            ),
        forall|o: int|
            old_bytes.len() <= o < bytes.len() && o % 16 != 15 ==> #[trigger] slot_in(bytes, o)
                == Slot::Data(0),
        aux_bytes_valid(old_bytes) ==> aux_bytes_valid(bytes),
{
    assert forall|i: int| 0 <= i < old_bytes.len() implies bytes[i] == old_bytes[i] by {
        assert(bytes.subrange(0, old_bytes.len() as int)[i] == bytes[i]);
    }
    lemma_data_byte(0);
    assert forall|o: int| 0 <= o < old_bytes.len() && o % 16 != 15 implies slot_in(bytes, o)
        == #[trigger] slot_in(old_bytes, o) by {
        lemma_slot_in_raw(bytes, o);
        lemma_slot_in_raw(old_bytes, o);
    }
    assert forall|o: int| old_bytes.len() <= o < bytes.len() && o % 16 != 15 implies #[trigger] slot_in(
        bytes,
        o,
    ) == Slot::Data(0) by {
        lemma_slot_in_raw(bytes, o);
        lemma_aux_masked(0, ((o % 16) / 2) as u8);
    }
    if aux_bytes_valid(old_bytes) {
        assert forall|k: int| 0 <= k < bytes.len() / 16 implies !aux_invalid(
            #[trigger] chunk(bytes, k),
        ) by {
            if k < old_bytes.len() / 16 {
                assert(chunk(bytes, k) =~= chunk(old_bytes, k));
            } else {
                assert(chunk(bytes, k)[15] == 0);
                lemma_aux_masked(0, 0);
            }
        }
    }
}

/// What was written last.
#[derive(Debug, PartialEq, Eq, Copy, Clone)]
enum LastOp {
    Nothing,
    Data(u8),
    Id,
}

/// Builds a sequence of frames position by position.
///
/// The view of a builder is the sequence of slots written so far.
pub struct FrameBuilder {
    frames: Vec<u8>,
    offset: usize,
    last_op: LastOp,
}

impl View for FrameBuilder {
    type V = Seq<Slot>;

    closed spec fn view(&self) -> Seq<Slot> {
        slots_upto(self.frames@, self.offset as int)
    }
}

impl FrameBuilder {
    /// The builder is consistent: it holds whole frames, writes in the last
    /// of them, and what lies after the write offset reads as zero data.
    pub closed spec fn wf(&self) -> bool {
        self.inv() && self.frames@.len() < self.offset + 16
    }

    spec fn inv(&self) -> bool {
        &&& self.frames@.len() % 16 == 0
        &&& self.offset <= self.frames@.len() <= self.offset + 16
        &&& self.offset % 16 != 15
        &&& aux_bytes_valid(self.frames@)
        &&& forall|o: int|
            self.offset <= o < self.frames@.len() && o % 16 != 15 ==> #[trigger] slot_in(
                self.frames@,
                o,
            ) == Slot::Data(0)
        &&& match self.last_op {
            LastOp::Nothing => self.offset == 0,
            LastOp::Data(v) => self.offset > 0 && (self.offset % 2 == 1 ==> slot_in(
                self.frames@,
                self.offset - 1,
            ) == Slot::Data(v)),
            LastOp::Id => self.offset > 0,
        }
    }

    /// Offset in the byte stream of the next position to be written.
    pub closed spec fn offset(&self) -> usize {
        self.offset
    }

    /// The last thing written was an ID.
    pub closed spec fn last_was_id(&self) -> bool {
        self.last_op is Id
    }

    /// The byte of data written last, if the last thing written was one.
    pub closed spec fn last_data(&self) -> Option<u8> {
        match self.last_op {
            LastOp::Data(v) => Some(v),
            _ => None,
        }
    }

    /// A builder with room for `capacity` frames, with nothing written.
    pub fn new(capacity: usize) -> (r: FrameBuilder)
        requires
            capacity * 16 <= usize::MAX,
        ensures
            r.wf(),
            r@ == Seq::<Slot>::empty(),
            r.offset() == 0,
            !r.last_was_id(),
            r.last_data() is None,
    {
        let r = FrameBuilder {
            frames: Vec::<u8>::with_capacity(capacity * 16),
            offset: 0,
            last_op: LastOp::Nothing,
        };
        assert(r.frames@.len() == 0);
        r
    }

    // Allocate a new frame (if needed):
    fn check_frame(&mut self)
        requires
            old(self).inv(),
            old(self).offset + 16 <= usize::MAX,
        ensures
            final(self).inv(),
            final(self)@ == old(self)@,
            final(self).offset == old(self).offset,
            final(self).last_op == old(self).last_op,
            final(self).offset < final(self).frames@.len(),
            old(self).offset % 2 == 1 ==> final(self).frames@ == old(self).frames@,
            old(self).offset >= 1 && (old(self).offset - 1) % 16 != 15 ==> slot_in(
                final(self).frames@,
                old(self).offset - 1,
            ) == slot_in(old(self).frames@, old(self).offset - 1),
    {
        if self.offset == self.frames.len() {
            let ghost before = self.frames@;
            let mut i: usize = 0;
            while i < 16
                invariant
                    i <= 16,
                    self.offset == old(self).offset,
                    self.last_op == old(self).last_op,
                    before == old(self).frames@,
                    before.len() + 16 <= usize::MAX,
                    self.frames@.len() == before.len() + i,
                    self.frames@.subrange(0, before.len() as int) == before,
                    forall|k: int| before.len() <= k < self.frames@.len() ==> self.frames@[k] == 0,
                decreases 16 - i,
            {
                let ghost prev = self.frames@;
                self.frames.push(0);
                assert(self.frames@.subrange(0, before.len() as int) =~= prev.subrange(
                    0,
                    before.len() as int,
                ));
                i = i + 1;
            }
            proof {
                lemma_appended_frame(before, self.frames@);
                lemma_slots_upto_same(before, self.frames@, self.offset as int);
            }
        }
    }

    // Increment the offset, skipping over the aux byte:
    fn increment_offset(&mut self)
        requires
            old(self).offset + 2 <= usize::MAX,
        ensures
            final(self).offset == next_offset(old(self).offset as int),
            final(self).frames == old(self).frames,
            final(self).last_op == old(self).last_op,
    {
        self.offset += if self.offset % 16 == 14 {
            2
        } else {
            1
        };
    }

    /// Writes a byte of data at the next position.
    pub fn set_data(&mut self, value: u8) -> (r: Result<(), FrameBuilderError>)
        requires
            old(self).wf(),
            old(self).offset() + 16 <= usize::MAX,
        ensures
            r is Ok,
            final(self).wf(),
            final(self)@ == old(self)@.push(Slot::Data(value)),
            final(self).offset() == next_offset(old(self).offset() as int),
            !final(self).last_was_id(),
            final(self).last_data() == Some(value),
    {
        self.check_frame();
        let ghost before = self.frames@;
        let ghost o = self.offset as int;
        proof {
            lemma_with_data_slot(before, o, value);
        }
        let r = set_stream_data(self.frames.as_mut_slice(), self.offset, value);
        proof {
            lemma_slots_upto_same(before, self.frames@, o);
            assert(slots_upto(self.frames@, o + 1) == slots_upto(self.frames@, o).push(
                Slot::Data(value),
            ));
            if o % 16 == 14 {
                assert(slots_upto(self.frames@, o + 2) == slots_upto(self.frames@, o + 1));
            }
            assert forall|k: int| o < k < self.frames@.len() && k % 16 != 15 implies #[trigger] slot_in(
                self.frames@,
                k,
            ) == Slot::Data(0) by {
                assert(slot_in(before, k) == Slot::Data(0));
            }
        }
        self.increment_offset();
        self.last_op = LastOp::Data(value);
        r
    }

    /// Writes `value` at the next position as an immediate or as a delayed
    /// ID.  Fails, and leaves the builder as it is, where the next position
    /// is an odd one, where the ID is not below `0x7F`, and where a delayed
    /// ID is asked for at the last position of a frame.
    pub fn set_id_direct(&mut self, value: u8, immediate: bool) -> (r: Result<
        (),
        FrameBuilderError,
    >)
        requires
            old(self).wf(),
            old(self).offset() + 16 <= usize::MAX,
        ensures
            final(self).wf(),
            match id_error(old(self).offset() + 1, old(self).offset(), value, immediate) {
                Some(e) => r == Err::<(), FrameBuilderError>(e) && *final(self) == *old(self),
                None => {
                    &&& r is Ok
                    &&& final(self)@ == old(self)@.push(
                        Slot::Id { id: value, delayed: !immediate },
                    )
                    &&& final(self).offset() == next_offset(old(self).offset() as int)
                    &&& final(self).last_was_id()
                    &&& final(self).last_data() is None
                },
            },
    {
        // Nothing is allocated for an ID that cannot be written.
        if self.offset % 2 != 0 {
            return Err(FrameBuilderError::InvalidOffset(self.offset));
        }
        if value >= 0x7f {
            return Err(FrameBuilderError::InvalidStreamId(self.offset, value));
        }
        if immediate == false && self.offset % 16 == 14 {
            return Err(FrameBuilderError::InvalidDelayedId(self.offset, value));
        }
        self.check_frame();
        let ghost before = self.frames@;
        let ghost o = self.offset as int;
        proof {
            lemma_with_id_slot(before, self.offset, value, immediate);
        }
        let r = set_stream_id(self.frames.as_mut_slice(), self.offset, value, immediate);
        proof {
            lemma_slots_upto_same(before, self.frames@, o);
            assert(slots_upto(self.frames@, o + 1) == slots_upto(self.frames@, o).push(
                Slot::Id { id: value, delayed: !immediate },
            ));
            if o % 16 == 14 {
                assert(slots_upto(self.frames@, o + 2) == slots_upto(self.frames@, o + 1));
            }
            assert forall|k: int| o < k < self.frames@.len() && k % 16 != 15 implies #[trigger] slot_in(
                self.frames@,
                k,
            ) == Slot::Data(0) by {
                assert(slot_in(before, k) == Slot::Data(0));
            }
        }
        self.increment_offset();
        self.last_op = LastOp::Id;
        r
    }

    /// Changes the stream ID for the data that follows.  At an even
    /// position the ID is written as an immediate one.  At an odd position
    /// the byte of data before it makes room: the ID takes its place as a
    /// delayed one, and the byte follows it.  Two IDs cannot follow one
    /// another without data in between.
    pub fn set_id(&mut self, value: u8) -> (r: Result<(), FrameBuilderError>)
        requires
            old(self).wf(),
            old(self).offset() + 16 <= usize::MAX,
        ensures
            final(self).wf(),
            if old(self).last_was_id() {
                &&& r == Err::<(), FrameBuilderError>(
                    FrameBuilderError::MissingData(old(self).offset()),
                )
                &&& *final(self) == *old(self)
            } else if value >= 0x7F {
                &&& r == Err::<(), FrameBuilderError>(
                    FrameBuilderError::InvalidStreamId(
                        if old(self).offset() % 2 == 0 {
                            old(self).offset()
                        } else {
                            (old(self).offset() - 1) as usize
                        },
                        value,
                    ),
                )
                &&& *final(self) == *old(self)
            } else if old(self).offset() % 2 == 0 {
                &&& r is Ok
                &&& final(self)@ == old(self)@.push(Slot::Id { id: value, delayed: false })
                &&& final(self).offset() == next_offset(old(self).offset() as int)
                &&& final(self).last_was_id()
            } else {
                &&& r is Ok
                &&& old(self).last_data() is Some
                &&& old(self)@.len() > 0
                &&& old(self)@.last() == Slot::Data(old(self).last_data()->Some_0)
                &&& final(self)@ == old(self)@.drop_last().push(
                    Slot::Id { id: value, delayed: true },
                ).push(old(self)@.last())
                &&& final(self).offset() == next_offset(old(self).offset() as int)
                &&& final(self).last_was_id()
            },
    {
        if matches!(self.last_op, LastOp::Id) {
            return Err(FrameBuilderError::MissingData(self.offset));
        }
        if self.offset % 2 == 0 {
            self.set_id_direct(value, true)
        } else {
            match self.last_op {
                LastOp::Data(byte) => {
                    if value >= 0x7f {
                        return Err(FrameBuilderError::InvalidStreamId(self.offset - 1, value));
                    }
                    let ghost before = *self;
                    let ghost o = self.offset as int;
                    proof {
                        assert(slots_upto(self.frames@, o) == slots_upto(self.frames@, o - 1).push(
                            Slot::Data(byte),
                        ));
                        assert(self@.drop_last() =~= slots_upto(self.frames@, o - 1));
                        lemma_with_id_slot(self.frames@, (o - 1) as usize, value, false);
                        lemma_with_data_slot(
                            with_id(self.frames@, o - 1, value, false),
                            o,
                            byte,
                        );
                    }
                    let r1 = set_stream_id(
                        self.frames.as_mut_slice(),
                        self.offset - 1,
                        value,
                        false,
                    );
                    let r = set_stream_data(self.frames.as_mut_slice(), self.offset, byte);
                    proof {
                        lemma_slots_upto_same(before.frames@, self.frames@, o - 1);
                        assert(slots_upto(self.frames@, o + 1) == slots_upto(
                            self.frames@,
                            o,
                        ).push(Slot::Data(byte)));
                        assert(slots_upto(self.frames@, o) == slots_upto(
                            self.frames@,
                            o - 1,
                        ).push(Slot::Id { id: value, delayed: true }));
                        assert forall|k: int|
                            o < k < self.frames@.len() && k % 16 != 15 implies #[trigger] slot_in(
                            self.frames@,
                            k,
                        ) == Slot::Data(0) by {
                            assert(slot_in(before.frames@, k) == Slot::Data(0));
                            assert(slot_in(with_id(before.frames@, o - 1, value, false), k)
                                == Slot::Data(0));
                        }
                    }
                    self.increment_offset();
                    self.last_op = LastOp::Id;
                    r
                },
                _ => {
                    proof {
                        assert(false);
                    }
                    Ok(())
                },
            }
        }
    }

    /// Writes `value` as an immediate ID; the next position has to be an
    /// even one and the ID below `0x7F`.
    pub fn immediate_id(self, value: u8) -> (r: FrameBuilder)
        requires
            self.wf(),
            self.offset() + 16 <= usize::MAX,
            self.offset() % 2 == 0,
            value < 0x7F,
        ensures
            r.wf(),
            r@ == self@.push(Slot::Id { id: value, delayed: false }),
            r.offset() == next_offset(self.offset() as int),
            r.last_was_id(),
    {
        let mut b = self;
        b.set_id_direct(value, true).unwrap();
        b
    }

    /// Writes `value` as a delayed ID; the next position has to be an even
    /// one and not the last of its frame, and the ID below `0x7F`.
    pub fn delayed_id(self, value: u8) -> (r: FrameBuilder)
        requires
            self.wf(),
            self.offset() + 16 <= usize::MAX,
            self.offset() % 2 == 0,
            self.offset() % 16 != 14,
            value < 0x7F,
        ensures
            r.wf(),
            r@ == self@.push(Slot::Id { id: value, delayed: true }),
            r.offset() == self.offset() + 1,
            r.last_was_id(),
    {
        let mut b = self;
        b.set_id_direct(value, false).unwrap();
        b
    }

    /// Changes the stream ID as [`FrameBuilder::set_id`] does; the last
    /// thing written cannot be an ID, and the ID has to be below `0x7F`.
    pub fn id(self, id: u8) -> (r: FrameBuilder)
        requires
            self.wf(),
            self.offset() + 16 <= usize::MAX,
            !self.last_was_id(),
            id < 0x7F,
        ensures
            r.wf(),
            r.last_was_id(),
            if self.offset() % 2 == 0 {
                &&& r@ == self@.push(Slot::Id { id, delayed: false })
                &&& r.offset() == next_offset(self.offset() as int)
            } else {
                &&& self@.len() > 0
                &&& r@ == self@.drop_last().push(Slot::Id { id, delayed: true }).push(self@.last())
                &&& r.offset() == next_offset(self.offset() as int)
            },
    {
        let mut b = self;
        b.set_id(id).unwrap();
        b
    }

    /// Writes `span` bytes of data, each the result of a call of `f`.
    pub fn data_span_with<F>(self, span: usize, f: F) -> (r: FrameBuilder) where F: FnMut() -> u8
        requires
            self.wf(),
            self.offset() + 2 * span + 16 <= usize::MAX,
            call_requires(f, ()),
        ensures
            r.wf(),
            r@.len() == self@.len() + span,
            r@.take(self@.len() as int) == self@,
            forall|i: int|
                self@.len() <= i < r@.len() ==> (#[trigger] r@[i]) is Data && call_ensures(
                    f,
                    (),
                    r@[i]->Data_0,
                ),
            span > 0 ==> !r.last_was_id(),
            span == 0 ==> r.last_was_id() == self.last_was_id() && r.offset() == self.offset(),
            r.offset() <= self.offset() + 2 * span,
    {
        let mut b = self;
        let mut f = f;
        let ghost f0 = f;
        let mut i: usize = 0;
        while i < span
            invariant
                i <= span,
                f == f0,
                call_requires(f0, ()),
                b.wf(),
                self.offset() + 2 * span + 16 <= usize::MAX,
                b.offset() <= self.offset() + 2 * i,
                b@.len() == self@.len() + i,
                b@.take(self@.len() as int) == self@,
                forall|k: int|
                    self@.len() <= k < b@.len() ==> (#[trigger] b@[k]) is Data && call_ensures(
                        f0,
                        (),
                        b@[k]->Data_0,
                    ),
                i > 0 ==> !b.last_was_id(),
                i == 0 ==> b.last_was_id() == self.last_was_id() && b.offset() == self.offset(),
            decreases span - i,
        {
            let ghost before = b@;
            let v = call_it(&mut f);
            b.set_data(v).unwrap();
            assert(b@.take(self@.len() as int) =~= before.take(self@.len() as int));
            i = i + 1;
        }
        b
    }

    /// Writes `span` bytes of data, each of them `data`.
    pub fn data_span(self, span: usize, data: u8) -> (r: FrameBuilder)
        requires
            self.wf(),
            self.offset() + 2 * span + 16 <= usize::MAX,
        ensures
            r.wf(),
            r@ == self@ + Seq::new(span as nat, |i: int| Slot::Data(data)),
            span > 0 ==> !r.last_was_id(),
            span == 0 ==> r.last_was_id() == self.last_was_id() && r.offset() == self.offset(),
            r.offset() <= self.offset() + 2 * span,
    {
        let mut b = self;
        let mut i: usize = 0;
        while i < span
            invariant
                i <= span,
                b.wf(),
                self.offset() + 2 * span + 16 <= usize::MAX,
                b.offset() <= self.offset() + 2 * i,
                b@ == self@ + Seq::new(i as nat, |k: int| Slot::Data(data)),
                i > 0 ==> !b.last_was_id(),
                i == 0 ==> b.last_was_id() == self.last_was_id() && b.offset() == self.offset(),
            decreases span - i,
        {
            b.set_data(data).unwrap();
            assert(b@ =~= self@ + Seq::new((i + 1) as nat, |k: int| Slot::Data(data)));
            i = i + 1;
        }
        b
    }

    /// Writes one byte of data.
    pub fn data(self, value: u8) -> (r: FrameBuilder)
        requires
            self.wf(),
            self.offset() + 16 <= usize::MAX,
        ensures
            r.wf(),
            r@ == self@.push(Slot::Data(value)),
            r.offset() == next_offset(self.offset() as int),
            !r.last_was_id(),
    {
        let mut b = self;
        b.set_data(value).unwrap();
        b
    }

    /// The frames built: a whole number of frames with valid AUX bytes, in
    /// which a parser reads what was written, followed by zero data up to
    /// the end of the last frame.  There is one such sequence of bytes.
    pub fn build(self) -> (r: Vec<u8>)
        requires
            self.wf(),
        ensures
            r@.len() % 16 == 0,
            r@.len() < self.offset() + 16,
            self.offset() <= r@.len(),
            aux_bytes_valid(r@),
            slots_upto(r@, r@.len() as int).len() == r@.len() / 16 * 15,
            slots_upto(r@, r@.len() as int).len() >= self@.len(),
            slots_upto(r@, r@.len() as int) == self@ + zero_slots(
                (slots_upto(r@, r@.len() as int).len() - self@.len()) as nat,
            ),
    {
        proof {
            lemma_slots_upto_zero(self.frames@, self.offset as int, self.frames@.len() as int);
            lemma_slots_len(self.frames@, self.frames@.len() as int);
        }
        self.frames
    }
}

fn call_it<F>(f: &mut F) -> (r: u8) where F: FnMut() -> u8
    requires
        call_requires(*old(f), ()),
    ensures
        *final(f) == *old(f),
        call_ensures(*old(f), (), r),
{
    f()
}

/// Inserts a frame synchronization packet before the byte at `offset` of
/// `frames`.
pub fn insert_fsync(frames: &mut Vec<u8>, offset: usize) -> (r: Result<(), FrameBuilderError>)
    requires
        old(frames)@.len() + 4 <= usize::MAX,
    ensures
        if offset >= old(frames)@.len() {
            &&& r == Err::<(), FrameBuilderError>(FrameBuilderError::InvalidOffset(offset))
            &&& final(frames)@ == old(frames)@
        } else {
            &&& r is Ok
            &&& final(frames)@ == old(frames)@.take(offset as int) + FSYNC@ + old(frames)@.skip(
                offset as int,
            )
        },
{
    if offset >= frames.len() {
        Err(FrameBuilderError::InvalidOffset(offset))
    } else {
        frames.reserve(4);
        let mut v = frames.split_off(offset);
        let ghost head = frames@;
        frames.push(FSYNC[0]);
        frames.push(FSYNC[1]);
        frames.push(FSYNC[2]);
        frames.push(FSYNC[3]);
        assert(frames@ =~= head + FSYNC@);
        frames.append(&mut v);
        Ok(())
    }
}

} // verus!
