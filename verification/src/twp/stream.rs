//! The data that a sequence of slots carries.
//!
//! Seen as a sequence of slots, without regard to frames, a TWP stream is
//! easy to read: a byte of data belongs to the stream ID in effect, an
//! immediate ID takes effect at once, and a delayed ID after the byte of
//! data that follows it.  [`slots_data`] is the data read in that way.  The
//! laws of this module say that the frame parser reads the same in the
//! bytes of the frames.

use crate::twp::stream_builder::{pad_slots, push_data, push_id, push_id_data};
use crate::twp::frame::{
    chunk,
    lemma_last_id_is_immediate,
    slot_at,
    slot_in,
    slots_upto,
    zero_slots,
    Slot,
};
use crate::twp::frame_parser::{
    events_upto,
    frames_events,
    id_after,
    slot_events,
    stream_before,
    stream_id_of,
    whole_events,
    FrameByte,
    FrameEvent,
    StreamId,
};
use vstd::prelude::*;

verus! {

/// The stream ID in effect after `slots`, when `stream_id` was in effect
/// before them.
pub open spec fn stream_after(slots: Seq<Slot>, stream_id: Option<StreamId>) -> Option<StreamId>
    decreases slots.len(),
{
    if slots.len() == 0 {
        stream_id
    } else {
        match slots.last() {
            Slot::Id { id, delayed } => if delayed {
                stream_after(slots.drop_last(), stream_id)
            } else {
                Some(stream_id_of(id))
            },
            Slot::Data(_) => if slots.len() >= 2 && slots[slots.len() - 2] == (Slot::Id {
                id: slots[slots.len() - 2]->id,
                delayed: true,
            }) {
                Some(stream_id_of(slots[slots.len() - 2]->id))
            } else {
                stream_after(slots.drop_last(), stream_id)
            },
        }
    }
}

/// The bytes of data among `slots`, each with the stream ID in effect where
/// it stands, when `stream_id` was in effect before the slots.
pub open spec fn slots_data(slots: Seq<Slot>, stream_id: Option<StreamId>) -> Seq<FrameByte>
    decreases slots.len(),
{
    if slots.len() == 0 {
        Seq::empty()
    } else {
        slots_data(slots.drop_last(), stream_id) + match slots.last() {
            Slot::Data(data) => seq![
                FrameByte { data, id: stream_after(slots.drop_last(), stream_id) },
            ],
            Slot::Id { .. } => Seq::empty(),
        }
    }
}

/// The bytes of data among `events`, in order.
pub open spec fn data_bytes(events: Seq<FrameEvent>) -> Seq<FrameByte>
    decreases events.len(),
{
    if events.len() == 0 {
        Seq::empty()
    } else {
        data_bytes(events.drop_last()) + match events.last().0 {
            Ok(byte) => seq![byte],
            Err(_) => Seq::empty(),
        }
    }
}

/// The bytes of data among two runs of events are those of the first, then
/// those of the second.
pub proof fn lemma_data_bytes_concat(a: Seq<FrameEvent>, b: Seq<FrameEvent>)
    ensures
        data_bytes(a + b) == data_bytes(a) + data_bytes(b),
    decreases b.len(),
{
    if b.len() == 0 {
        assert(a + b =~= a);
        assert(data_bytes(a) + data_bytes(b) =~= data_bytes(a));
    } else {
        lemma_data_bytes_concat(a, b.drop_last());
        assert((a + b).drop_last() =~= a + b.drop_last());
        assert((a + b).last() == b.last());
        let tail = match b.last().0 {
            Ok(byte) => seq![byte],
            Err(_) => Seq::<FrameByte>::empty(),
        };
        assert(data_bytes(a + b) =~= data_bytes(a) + (data_bytes(b.drop_last()) + tail));
    }
}

proof fn lemma_data_bytes_one(event: FrameEvent)
    ensures
        data_bytes(seq![event]) == match event.0 {
            Ok(byte) => seq![byte],
            Err(_) => Seq::<FrameByte>::empty(),
        },
        data_bytes(Seq::<FrameEvent>::empty()) == Seq::<FrameByte>::empty(),
{
    reveal_with_fuel(data_bytes, 2);
    assert(seq![event].drop_last() =~= Seq::<FrameEvent>::empty());
    let tail = match event.0 {
        Ok(byte) => seq![byte],
        Err(_) => Seq::<FrameByte>::empty(),
    };
    assert(Seq::<FrameByte>::empty() + tail =~= tail);
}

/// The last of the slots before `offset` is what stands at the position
/// before `offset`, or before the AUX byte that `offset` follows.
proof fn lemma_slots_upto_last(bytes: Seq<u8>, offset: int)
    requires
        offset >= 1,
    ensures
        (offset - 1) % 16 != 15 ==> slots_upto(bytes, offset).len() >= 1 && slots_upto(
            bytes,
            offset,
        ).last() == slot_in(bytes, offset - 1),
        (offset - 1) % 16 == 15 ==> slots_upto(bytes, offset).len() >= 1 && slots_upto(
            bytes,
            offset,
        ).last() == slot_in(bytes, offset - 2),
{
    if (offset - 1) % 16 == 15 {
        assert(slots_upto(bytes, offset) == slots_upto(bytes, offset - 1));
        assert(slots_upto(bytes, offset - 1) == slots_upto(bytes, offset - 2).push(
            slot_in(bytes, offset - 2),
        ));
    }
}

/// One more slot of a frame, for the stream ID in effect.
proof fn lemma_stream_step(
    slots: Seq<Slot>,
    frame: Seq<u8>,
    id_in: Option<StreamId>,
    pos: int,
    stream_id: Option<StreamId>,
)
    requires
        0 <= pos <= 14,
        stream_after(slots, stream_id) == stream_before(frame, id_in, pos),
        pos >= 1 ==> slots.len() >= 1 && slots.last() == slot_at(frame, pos - 1),
        pos == 0 && slots.len() >= 1 ==> slots.last() != (Slot::Id {
            id: slots.last()->id,
            delayed: true,
        }),
    ensures
        stream_after(slots.push(slot_at(frame, pos)), stream_id) == stream_before(
            frame,
            id_in,
            pos + 1,
        ),
{
    let next = slots.push(slot_at(frame, pos));
    assert(next.drop_last() =~= slots);
    assert(next.last() == slot_at(frame, pos));
    if slots.len() >= 1 {
        assert(next[next.len() - 2] == slots.last());
    }
}

/// One more slot of a frame, for the data.
proof fn lemma_data_step(
    slots: Seq<Slot>,
    frame: Seq<u8>,
    id_in: Option<StreamId>,
    pos: int,
    base: usize,
    stream_id: Option<StreamId>,
)
    requires
        0 <= pos <= 14,
        stream_after(slots, stream_id) == stream_before(frame, id_in, pos),
    ensures
        slots_data(slots.push(slot_at(frame, pos)), stream_id) == slots_data(slots, stream_id)
            + data_bytes(slot_events(frame, id_in, pos, base)),
{
    let next = slots.push(slot_at(frame, pos));
    assert(next.drop_last() =~= slots);
    assert(next.last() == slot_at(frame, pos));
    let here = slot_events(frame, id_in, pos, base);
    lemma_data_bytes_one((arbitrary(), 0usize));
    if here.len() > 0 {
        lemma_data_bytes_one(here[0]);
        assert(here =~= seq![here[0]]);
    }
}

/// The events of a frame before any position carry no data.
proof fn lemma_no_data_before(frame: Seq<u8>, id_in: Option<StreamId>, base: usize)
    ensures
        data_bytes(events_upto(frame, id_in, 0, base)) == Seq::<FrameByte>::empty(),
{
    let aux = events_upto(frame, id_in, 0, base);
    lemma_data_bytes_one((arbitrary(), 0usize));
    if aux.len() > 0 {
        lemma_data_bytes_one(aux[0]);
        assert(aux =~= seq![aux[0]]);
    }
}

/// The stream ID in effect where the frame parser has come to `offset` is
/// the one in effect after the slots before `offset`.
proof fn lemma_stream_upto(bytes: Seq<u8>, stream_id: Option<StreamId>, offset: int)
    requires
        bytes.len() % 16 == 0,
        0 <= offset <= bytes.len(),
    ensures
        offset % 16 != 15 ==> stream_after(slots_upto(bytes, offset), stream_id) == stream_before(
            chunk(bytes, offset / 16),
            id_after(bytes, stream_id, offset / 16),
            offset % 16,
        ),
        offset % 16 == 15 ==> stream_after(slots_upto(bytes, offset), stream_id) == id_after(
            bytes,
            stream_id,
            offset / 16 + 1,
        ),
    decreases offset,
{
    let k = offset / 16;
    let pos = offset % 16;
    let frame = chunk(bytes, k);
    let id_in = id_after(bytes, stream_id, k);
    if offset > 0 {
        lemma_stream_upto(bytes, stream_id, offset - 1);
        let before = slots_upto(bytes, offset - 1);
        if (offset - 1) % 16 != 15 {
            let p = pos - 1;
            assert((offset - 1) / 16 == k && (offset - 1) % 16 == p);
            assert(slots_upto(bytes, offset) == before.push(slot_at(frame, p)));
            if offset >= 2 {
                lemma_slots_upto_last(bytes, offset - 1);
            }
            if p == 0 && offset >= 2 {
                assert((offset - 3) / 16 == k - 1 && (offset - 3) % 16 == 14);
                lemma_last_id_is_immediate(chunk(bytes, k - 1));
            }
            lemma_stream_step(before, frame, id_in, p, stream_id);
        }
    }
}

/// The data that the frame parser has read when it has come to `offset` is
/// the data that the slots before `offset` carry.
proof fn lemma_data_upto(bytes: Seq<u8>, stream_id: Option<StreamId>, offset: int)
    requires
        bytes.len() % 16 == 0,
        0 <= offset <= bytes.len(),
    ensures
        offset % 16 != 15 ==> slots_data(slots_upto(bytes, offset), stream_id) == data_bytes(
            whole_events(bytes, stream_id, offset / 16),
        ) + data_bytes(
            events_upto(
                chunk(bytes, offset / 16),
                id_after(bytes, stream_id, offset / 16),
                offset % 16,
                (offset - offset % 16) as usize,
            ),
        ),
        offset % 16 == 15 ==> slots_data(slots_upto(bytes, offset), stream_id) == data_bytes(
            whole_events(bytes, stream_id, offset / 16 + 1),
        ),
    decreases offset,
{
    let k = offset / 16;
    let pos = offset % 16;
    let frame = chunk(bytes, k);
    let id_in = id_after(bytes, stream_id, k);
    let base = (offset - pos) as usize;
    let whole = data_bytes(whole_events(bytes, stream_id, k));
    lemma_no_data_before(frame, id_in, base);
    if offset == 0 {
        assert(whole + Seq::<FrameByte>::empty() =~= whole);
    } else {
        lemma_data_upto(bytes, stream_id, offset - 1);
        lemma_stream_upto(bytes, stream_id, offset - 1);
        let before = slots_upto(bytes, offset - 1);
        if (offset - 1) % 16 == 15 {
            assert(whole + Seq::<FrameByte>::empty() =~= whole);
        } else {
            let p = pos - 1;
            assert((offset - 1) / 16 == k && (offset - 1) % 16 == p);
            assert(slots_upto(bytes, offset) == before.push(slot_at(frame, p)));
            let upto = events_upto(frame, id_in, p, base);
            let here = slot_events(frame, id_in, p, base);
            lemma_data_step(before, frame, id_in, p, base, stream_id);
            lemma_data_bytes_concat(upto, here);
            assert(whole + (data_bytes(upto) + data_bytes(here)) =~= (whole + data_bytes(upto))
                + data_bytes(here));
            if pos == 15 {
                lemma_data_bytes_concat(
                    whole_events(bytes, stream_id, k),
                    events_upto(frame, id_in, 15, base),
                );
            }
        }
    }
}

/// The frame parser reads in a sequence of whole frames what their slots
/// carry: the bytes of data that it hands on, in order, are the bytes of
/// data among the slots, each with the stream ID in effect where it stands,
/// and the stream ID that it returns is the one in effect after the slots.
pub proof fn lemma_parser_reads_slots(bytes: Seq<u8>, stream_id: Option<StreamId>)
    requires
        bytes.len() % 16 == 0,
    ensures
        data_bytes(frames_events(bytes, stream_id)) == slots_data(
            slots_upto(bytes, bytes.len() as int),
            stream_id,
        ),
        id_after(bytes, stream_id, bytes.len() as int / 16) == stream_after(
            slots_upto(bytes, bytes.len() as int),
            stream_id,
        ),
{
    let n = bytes.len() as int;
    let k = n / 16;
    lemma_data_upto(bytes, stream_id, n);
    lemma_stream_upto(bytes, stream_id, n);
    lemma_no_data_before(chunk(bytes, k), id_after(bytes, stream_id, k), n as usize);
    let whole = whole_events(bytes, stream_id, k);
    assert(data_bytes(whole) + Seq::<FrameByte>::empty() =~= data_bytes(whole));
    assert(frames_events(bytes, stream_id) =~= whole);
}

/// The bytes `data`, each under the stream ID `id`.
pub open spec fn under(id: Option<StreamId>, data: Seq<u8>) -> Seq<FrameByte> {
    Seq::new(data.len(), |k: int| FrameByte { data: data[k], id })
}

/// `count` bytes of zero.
pub open spec fn zeros(count: nat) -> Seq<u8> {
    Seq::new(count, |k: int| 0u8)
}

/// The slots end where data can follow: not with a delayed ID, which waits
/// for the byte after it, and, at an odd position of the frame, with a byte
/// of data.
pub open spec fn settled(slots: Seq<Slot>) -> bool {
    &&& slots.len() > 0 ==> slots.last() != (Slot::Id { id: slots.last()->id, delayed: true })
    &&& (slots.len() % 15) % 2 == 1 ==> slots.len() > 0 && slots.last() is Data
}

/// One more byte of data belongs to the stream ID in effect.
proof fn lemma_push_one(slots: Seq<Slot>, d: u8, stream_id: Option<StreamId>)
    requires
        slots.len() > 0 ==> slots.last() != (Slot::Id { id: slots.last()->id, delayed: true }),
    ensures
        slots_data(slots.push(Slot::Data(d)), stream_id) == slots_data(slots, stream_id).push(
            FrameByte { data: d, id: stream_after(slots, stream_id) },
        ),
        stream_after(slots.push(Slot::Data(d)), stream_id) == stream_after(slots, stream_id),
        settled(slots.push(Slot::Data(d))),
{
    let next = slots.push(Slot::Data(d));
    assert(next.drop_last() =~= slots);
    if slots.len() > 0 {
        assert(next[next.len() - 2] == slots.last());
    }
    assert(slots_data(slots, stream_id) + seq![
        FrameByte { data: d, id: stream_after(slots, stream_id) },
    ] =~= slots_data(slots, stream_id).push(
        FrameByte { data: d, id: stream_after(slots, stream_id) },
    ));
}

/// Data emitted after slots that are settled belongs to the stream ID in
/// effect after them, and leaves that ID in effect.
pub proof fn lemma_push_data_stream(slots: Seq<Slot>, data: Seq<u8>, stream_id: Option<StreamId>)
    requires
        slots.len() > 0 ==> slots.last() != (Slot::Id { id: slots.last()->id, delayed: true }),
    ensures
        slots_data(push_data(slots, data), stream_id) == slots_data(slots, stream_id) + under(
            stream_after(slots, stream_id),
            data,
        ),
        stream_after(push_data(slots, data), stream_id) == stream_after(slots, stream_id),
        data.len() > 0 ==> settled(push_data(slots, data)),
    decreases data.len(),
{
    let id = stream_after(slots, stream_id);
    if data.len() == 0 {
        assert(push_data(slots, data) =~= slots);
        assert(slots_data(slots, stream_id) + under(id, data) =~= slots_data(slots, stream_id));
    } else {
        let front = data.drop_last();
        lemma_push_data_stream(slots, front, stream_id);
        let before = push_data(slots, front);
        assert(push_data(slots, data) =~= before.push(Slot::Data(data.last())));
        if front.len() == 0 {
            assert(before =~= slots);
        }
        lemma_push_one(before, data.last(), stream_id);
        assert(slots_data(slots, stream_id) + under(id, data) =~= (slots_data(slots, stream_id)
            + under(id, front)).push(FrameByte { data: data.last(), id }));
    }
}

/// An ID and data emitted after slots that are settled: the data belongs to
/// the ID, what was emitted before belongs to what it belonged to, and the
/// ID is left in effect.  Without data, nothing is emitted.
pub proof fn lemma_push_id_data_stream(
    slots: Seq<Slot>,
    id: u8,
    data: Seq<u8>,
    stream_id: Option<StreamId>,
)
    requires
        settled(slots),
    ensures
        settled(push_id_data(slots, Some(id), data)),
        slots_data(push_id_data(slots, Some(id), data), stream_id) == slots_data(slots, stream_id)
            + under(Some(stream_id_of(id)), data),
        data.len() > 0 ==> stream_after(push_id_data(slots, Some(id), data), stream_id) == Some(
            stream_id_of(id),
        ),
{
    let new_id = Some(stream_id_of(id));
    if data.len() == 0 {
        assert(slots_data(slots, stream_id) + under(new_id, data) =~= slots_data(
            slots,
            stream_id,
        ));
    } else {
        let with_id = push_id(slots, id);
        if (slots.len() % 15) % 2 == 0 {
            // An immediate ID, then the data.
            assert(with_id.drop_last() =~= slots);
            assert(slots_data(with_id, stream_id) =~= slots_data(slots, stream_id));
            assert(stream_after(with_id, stream_id) == new_id);
            lemma_push_data_stream(with_id, data, stream_id);
        } else {
            // A delayed ID before the last byte of data, then the data.
            let front = slots.drop_last();
            let last = slots.last();
            let mid = front.push(Slot::Id { id, delayed: true });
            assert(slots =~= front.push(last));
            assert(with_id == mid.push(last));
            assert(with_id.drop_last() =~= mid);
            assert(mid.drop_last() =~= front);
            assert(with_id[with_id.len() - 2] == mid.last());
            assert(stream_after(mid, stream_id) == stream_after(front, stream_id));
            assert(slots_data(mid, stream_id) =~= slots_data(front, stream_id));
            assert(slots_data(with_id, stream_id) =~= slots_data(slots, stream_id));
            assert(stream_after(with_id, stream_id) == new_id);
            lemma_push_data_stream(with_id, data, stream_id);
        }
    }
}

/// Completing the last frame adds zero data under the null ID, fewer than
/// fifteen bytes of it, to what the slots carry, and nothing where the
/// frame is complete.
pub proof fn lemma_pad_stream(slots: Seq<Slot>, stream_id: Option<StreamId>) -> (count: nat)
    requires
        settled(slots),
    ensures
        count < 15,
        slots_data(pad_slots(slots), stream_id) == slots_data(slots, stream_id) + under(
            Some(StreamId::Null),
            zeros(count),
        ),
        pad_slots(slots).len() % 15 == 0,
{
    if slots.len() % 15 == 0 {
        assert(slots_data(slots, stream_id) + under(Some(StreamId::Null), zeros(0))
            =~= slots_data(slots, stream_id));
        0
    } else {
        let with_id = push_id(slots, 0);
        let count = ((15 - with_id.len() % 15) as nat % 15) as nat;
        assert(pad_slots(slots) =~= push_data(with_id, zeros(count)));
        if count == 0 {
            assert(push_data(with_id, zeros(0)) =~= with_id);
            assert(with_id.drop_last() =~= slots);
            assert(slots_data(with_id, stream_id) =~= slots_data(slots, stream_id));
            assert(slots_data(slots, stream_id) + under(Some(StreamId::Null), zeros(0))
                =~= slots_data(slots, stream_id));
        } else {
            assert(push_id_data(slots, Some(0u8), zeros(count)) == push_data(
                with_id,
                zeros(count),
            ));
            lemma_push_id_data_stream(slots, 0, zeros(count), stream_id);
        }
        count
    }
}

/// The slots that a stream builder emits for `chunks`, each an ID and the
/// data to go under it.
pub open spec fn built(chunks: Seq<(u8, Seq<u8>)>) -> Seq<Slot>
    decreases chunks.len(),
{
    if chunks.len() == 0 {
        Seq::empty()
    } else {
        push_id_data(built(chunks.drop_last()), Some(chunks.last().0), chunks.last().1)
    }
}

/// The data of `chunks`, each byte under the ID of its chunk.
pub open spec fn carried(chunks: Seq<(u8, Seq<u8>)>) -> Seq<FrameByte>
    decreases chunks.len(),
{
    if chunks.len() == 0 {
        Seq::empty()
    } else {
        carried(chunks.drop_last()) + under(Some(stream_id_of(chunks.last().0)), chunks.last().1)
    }
}

proof fn lemma_built(chunks: Seq<(u8, Seq<u8>)>, stream_id: Option<StreamId>)
    ensures
        settled(built(chunks)),
        slots_data(built(chunks), stream_id) == carried(chunks),
    decreases chunks.len(),
{
    if chunks.len() > 0 {
        lemma_built(chunks.drop_last(), stream_id);
        lemma_push_id_data_stream(
            built(chunks.drop_last()),
            chunks.last().0,
            chunks.last().1,
            stream_id,
        );
    }
}

/// What a stream builder emits for a sequence of chunks, each an ID and
/// data, and completes to whole frames, carries the data of the chunks,
/// each byte under the ID of its chunk, and after it fewer than fifteen
/// bytes of zero under the null ID.  Whatever stream ID is in effect before
/// has no part in it.
pub proof fn lemma_stream_round_trip(chunks: Seq<(u8, Seq<u8>)>, stream_id: Option<StreamId>) -> (count:
    nat)
    ensures
        count < 15,
        pad_slots(built(chunks)).len() % 15 == 0,
        slots_data(pad_slots(built(chunks)), stream_id) == carried(chunks) + under(
            Some(StreamId::Null),
            zeros(count),
        ),
{
    lemma_built(chunks, stream_id);
    lemma_pad_stream(built(chunks), stream_id)
}

/// The frames that a stream builder writes for a sequence of chunks, each
/// an ID and data, give the parser the data of the chunks, each byte under
/// the ID of its chunk, and after it fewer than fifteen bytes of zero under
/// the null ID.
pub proof fn lemma_stream_frames_parse(
    bytes: Seq<u8>,
    chunks: Seq<(u8, Seq<u8>)>,
    stream_id: Option<StreamId>,
) -> (count: nat)
    requires
        bytes.len() % 16 == 0,
        slots_upto(bytes, bytes.len() as int) == pad_slots(built(chunks)),
    ensures
        count < 15,
        data_bytes(frames_events(bytes, stream_id)) == carried(chunks) + under(
            Some(StreamId::Null),
            zeros(count),
        ),
{
    lemma_parser_reads_slots(bytes, stream_id);
    lemma_stream_round_trip(chunks, stream_id)
}

/// Frames in which a parser reads the slots `slots` and then zero data up
/// to the end of the last frame, as a frame builder builds them, give the
/// parser the data that `slots` carry, and after it the zero data under the
/// stream ID in effect.
pub proof fn lemma_built_frames_parse(
    bytes: Seq<u8>,
    slots: Seq<Slot>,
    padding: nat,
    stream_id: Option<StreamId>,
)
    requires
        bytes.len() % 16 == 0,
        slots_upto(bytes, bytes.len() as int) == slots + zero_slots(padding),
        slots.len() > 0 ==> slots.last() != (Slot::Id { id: slots.last()->id, delayed: true }),
    ensures
        data_bytes(frames_events(bytes, stream_id)) == slots_data(slots, stream_id) + under(
            stream_after(slots, stream_id),
            zeros(padding),
        ),
{
    lemma_parser_reads_slots(bytes, stream_id);
    lemma_push_data_stream(slots, zeros(padding), stream_id);
    assert(push_data(slots, zeros(padding)) =~= slots + zero_slots(padding));
}

} // verus!
