//! Parses MIPI TWP frames (aka TPIU frames) into data values.
//!
//! What a frame means is defined by spec functions: [`stream_before`] gives
//! the stream ID in effect at each position, [`frame_events`] the bytes of
//! data and the errors that the frame holds, in order, and
//! [`frames_events`] does the same for a sequence of frames.  The parsing
//! functions hand exactly those events to their handler.

use crate::twp::error::{Error, ErrorKind};
use crate::twp::frame::{
    aux_invalid,
    chunk,
    effective_aux,
    lemma_aux_masked,
    lemma_data_byte,
    lemma_last_id_is_immediate,
    lemma_reserved_id,
    slot_at,
    Slot,
};
use vstd::prelude::*;
use vstd::std_specs::convert::FromSpecImpl;

verus! {

/// Stream ID
#[derive(Debug, Copy, Clone, PartialEq, Eq, Hash)]
pub enum StreamId {
    /// 'null' Stream ID.
    Null,
    /// A standard data Stream ID.
    Data(u8),
    /// A trigger Stream ID.
    Trigger,
}

/// The stream ID that the seven-bit value `id` stands for.
pub open spec fn stream_id_of(id: u8) -> StreamId {
    if id == 0 {
        StreamId::Null
    } else if id == 0x7D {
        StreamId::Trigger
    } else {
        StreamId::Data(id)
    }
}

/// The seven-bit value that stands for `id`.
pub open spec fn stream_id_value(id: StreamId) -> u8 {
    match id {
        StreamId::Null => 0,
        StreamId::Trigger => 0x7D,
        StreamId::Data(id) => id,
    }
}

impl From<u8> for StreamId {
    fn from(id: u8) -> (r: Self) {
        if id == 0 {
            StreamId::Null
        } else if id == 0x7D {
            StreamId::Trigger
        } else {
            StreamId::Data(id)
        }
    }
}

impl FromSpecImpl<u8> for StreamId {
    open spec fn obeys_from_spec() -> bool {
        true
    }

    open spec fn from_spec(id: u8) -> Self {
        stream_id_of(id)
    }
}

impl From<StreamId> for u8 {
    fn from(id: StreamId) -> (r: Self) {
        match id {
            StreamId::Null => 0,
            StreamId::Trigger => 0x7D,
            StreamId::Data(id) => id,
        }
    }
}

impl FromSpecImpl<StreamId> for u8 {
    open spec fn obeys_from_spec() -> bool {
        true
    }

    open spec fn from_spec(id: StreamId) -> Self {
        stream_id_value(id)
    }
}

/// A number stands for one stream ID, and that ID for the number.  A
/// stream ID stands for one number, and that number for the ID,
/// unless the ID is `Data(0)` or `Data(0x7D)`, which share their numbers
/// with the null and the trigger ID.
pub proof fn lemma_stream_id_numbers(number: u8, id: StreamId)
    ensures
        stream_id_value(stream_id_of(number)) == number,
        id != StreamId::Data(0) && id != StreamId::Data(0x7D) ==> stream_id_of(
            stream_id_value(id),
        ) == id,
{
}

/// A byte of frame data associated with a particular Stream ID.
#[derive(Debug, Copy, Clone, PartialEq, Eq)]
pub struct FrameByte {
    /// The byte value.
    pub data: u8,
    /// The byte's associated Stream ID.
    pub id: Option<StreamId>,
}

/// What a frame parser hands to its handler: a byte of data or the kind of
/// an error, and the offset at which it was found.
pub type FrameEvent = (Result<FrameByte, ErrorKind>, usize);

/// The stream ID in effect at position `pos` of `frame`, when the frame
/// starts under `stream_id`.  An immediate ID takes effect at the position
/// after it, a delayed one at the position after that.
pub open spec fn stream_before(frame: Seq<u8>, stream_id: Option<StreamId>, pos: int) -> Option<
    StreamId,
>
    decreases pos,
{
    if pos <= 0 {
        stream_id
    } else {
        match slot_at(frame, pos - 1) {
            Slot::Id { id, delayed } => if delayed {
                stream_before(frame, stream_id, pos - 1)
            } else {
                Some(stream_id_of(id))
            },
            Slot::Data(_) => if pos >= 2 && slot_at(frame, pos - 2) == (Slot::Id {
                id: slot_at(frame, pos - 2)->id,
                delayed: true,
            }) {
                Some(stream_id_of(slot_at(frame, pos - 2)->id))
            } else {
                stream_before(frame, stream_id, pos - 1)
            },
        }
    }
}

/// The stream ID in effect after `frame`.
pub open spec fn frame_final_id(frame: Seq<u8>, stream_id: Option<StreamId>) -> Option<StreamId> {
    stream_before(frame, stream_id, 15)
}

/// What position `pos` of `frame` gives: a byte of data under the stream ID
/// in effect, nothing for an ID, or an error for the reserved ID `0x7F`.
/// Offsets count from `base`.
pub open spec fn slot_events(
    frame: Seq<u8>,
    stream_id: Option<StreamId>,
    pos: int,
    base: usize,
) -> Seq<FrameEvent> {
    match slot_at(frame, pos) {
        Slot::Data(data) => seq![
            (
                Ok(FrameByte { data, id: stream_before(frame, stream_id, pos) }),
                (base + pos) as usize,
            ),
        ],
        Slot::Id { id, delayed } => if id == 0x7F {
            seq![(Err(ErrorKind::InvalidStreamId(0x7F)), (base + pos) as usize)]
        } else {
            Seq::empty()
        },
    }
}

/// The error owed for an invalid AUX byte, if the frame has one.
pub open spec fn aux_events(frame: Seq<u8>, base: usize) -> Seq<FrameEvent> {
    if aux_invalid(frame) {
        seq![(Err(ErrorKind::InvalidAuxByte(frame[15])), (base + 15) as usize)]
    } else {
        Seq::empty()
    }
}

/// What the AUX byte and the first `count` positions of `frame` give.
pub open spec fn events_upto(
    frame: Seq<u8>,
    stream_id: Option<StreamId>,
    count: int,
    base: usize,
) -> Seq<FrameEvent>
    decreases count,
{
    if count <= 0 {
        aux_events(frame, base)
    } else {
        events_upto(frame, stream_id, count - 1, base) + slot_events(
            frame,
            stream_id,
            count - 1,
            base,
        )
    }
}

/// What `frame` gives when it starts under `stream_id` and lies at offset
/// `base`: first the error for an invalid AUX byte, then its bytes of data
/// and errors by position.
pub open spec fn frame_events_at(frame: Seq<u8>, stream_id: Option<StreamId>, base: usize) -> Seq<
    FrameEvent,
> {
    events_upto(frame, stream_id, 15, base)
}

/// What `frame` gives when it starts under `stream_id`, with offsets
/// relative to the frame.
pub open spec fn frame_events(frame: Seq<u8>, stream_id: Option<StreamId>) -> Seq<FrameEvent> {
    frame_events_at(frame, stream_id, 0)
}

/// The stream ID in effect after the first `count` frames of `bytes`.
pub open spec fn id_after(bytes: Seq<u8>, stream_id: Option<StreamId>, count: int) -> Option<
    StreamId,
>
    decreases count,
{
    if count <= 0 {
        stream_id
    } else {
        frame_final_id(chunk(bytes, count - 1), id_after(bytes, stream_id, count - 1))
    }
}

/// What the first `count` frames of `bytes` give, with offsets relative to
/// the start of `bytes`.
pub open spec fn whole_events(bytes: Seq<u8>, stream_id: Option<StreamId>, count: int) -> Seq<
    FrameEvent,
>
    decreases count,
{
    if count <= 0 {
        Seq::empty()
    } else {
        whole_events(bytes, stream_id, count - 1) + frame_events_at(
            chunk(bytes, count - 1),
            id_after(bytes, stream_id, count - 1),
            (16 * (count - 1)) as usize,
        )
    }
}

/// The error owed for the bytes that follow the last whole frame, if there
/// are any.
pub open spec fn partial_events(bytes: Seq<u8>) -> Seq<FrameEvent> {
    if bytes.len() % 16 != 0 {
        seq![
            (
                Err(ErrorKind::PartialFrame((bytes.len() % 16) as usize)),
                (bytes.len() - bytes.len() % 16) as usize,
            ),
        ]
    } else {
        Seq::empty()
    }
}

/// What a sequence of contiguous frames gives: the events of each whole
/// frame, then the error for a last, partial frame.
pub open spec fn frames_events(bytes: Seq<u8>, stream_id: Option<StreamId>) -> Seq<FrameEvent> {
    whole_events(bytes, stream_id, bytes.len() as int / 16) + partial_events(bytes)
}

/// `handler` took each of `events` and returned `Ok`.
pub open spec fn accepts<H>(handler: H, events: Seq<FrameEvent>) -> bool where
    H: FnMut(Result<FrameByte, ErrorKind>, usize) -> Result<(), Error>,
 {
    forall|i: int|
        0 <= i < events.len() ==> call_ensures(handler, #[trigger] events[i], Ok::<(), Error>(()))
}

/// `handler` took `events` in order, returned `Ok` each time until it
/// returned the error `error` for one of them, and was handed nothing after
/// that.
pub open spec fn stops<H>(handler: H, events: Seq<FrameEvent>, error: Error) -> bool where
    H: FnMut(Result<FrameByte, ErrorKind>, usize) -> Result<(), Error>,
 {
    exists|i: int|
        0 <= i < events.len() && accepts(handler, events.take(i)) && call_ensures(
            handler,
            #[trigger] events[i],
            Err::<(), Error>(error),
        )
}

proof fn lemma_accepts_concat<H>(handler: H, a: Seq<FrameEvent>, b: Seq<FrameEvent>) where
    H: FnMut(Result<FrameByte, ErrorKind>, usize) -> Result<(), Error>,

    requires
        accepts(handler, a),
        accepts(handler, b),
    ensures
        accepts(handler, a + b),
{
    assert forall|i: int| 0 <= i < (a + b).len() implies call_ensures(
        handler,
        #[trigger] (a + b)[i],
        Ok::<(), Error>(()),
    ) by {
        if i < a.len() {
            assert((a + b)[i] == a[i]);
        } else {
            assert((a + b)[i] == b[i - a.len()]);
        }
    }
}

proof fn lemma_stops_after<H>(handler: H, a: Seq<FrameEvent>, b: Seq<FrameEvent>, error: Error) where
    H: FnMut(Result<FrameByte, ErrorKind>, usize) -> Result<(), Error>,

    requires
        accepts(handler, a),
        stops(handler, b, error),
    ensures
        stops(handler, a + b, error),
{
    let i = choose|i: int|
        0 <= i < b.len() && accepts(handler, b.take(i)) && call_ensures(
            handler,
            #[trigger] b[i],
            Err::<(), Error>(error),
        );
    let k = a.len() + i;
    assert((a + b)[k] == b[i]);
    assert((a + b).take(k) =~= a + b.take(i));
    lemma_accepts_concat(handler, a, b.take(i));
}

proof fn lemma_stops_extend<H>(handler: H, a: Seq<FrameEvent>, b: Seq<FrameEvent>, error: Error) where
    H: FnMut(Result<FrameByte, ErrorKind>, usize) -> Result<(), Error>,

    requires
        stops(handler, a, error),
    ensures
        stops(handler, a + b, error),
{
    let i = choose|i: int|
        0 <= i < a.len() && accepts(handler, a.take(i)) && call_ensures(
            handler,
            #[trigger] a[i],
            Err::<(), Error>(error),
        );
    assert((a + b)[i] == a[i]);
    assert((a + b).take(i) =~= a.take(i));
}

/// The events of the first `count` frames are the first events of any
/// larger number of frames.
pub(crate) proof fn lemma_whole_events_split(
    bytes: Seq<u8>,
    stream_id: Option<StreamId>,
    count: int,
    total: int,
) -> (rest: Seq<FrameEvent>)
    requires
        0 <= count <= total,
    ensures
        whole_events(bytes, stream_id, total) == whole_events(bytes, stream_id, count) + rest,
    decreases total - count,
{
    if count == total {
        let rest = Seq::<FrameEvent>::empty();
        assert(whole_events(bytes, stream_id, total) =~= whole_events(bytes, stream_id, count)
            + rest);
        rest
    } else {
        let r1 = lemma_whole_events_split(bytes, stream_id, count, total - 1);
        let last = frame_events_at(
            chunk(bytes, total - 1),
            id_after(bytes, stream_id, total - 1),
            (16 * (total - 1)) as usize,
        );
        let rest = r1 + last;
        assert(whole_events(bytes, stream_id, total) =~= whole_events(bytes, stream_id, count)
            + rest);
        rest
    }
}

fn emit<H>(event: FrameEvent, handler: &mut H) -> (r: Result<(), Error>) where
    H: FnMut(Result<FrameByte, ErrorKind>, usize) -> Result<(), Error>,

    requires
        forall|r: Result<FrameByte, ErrorKind>, o: usize| call_requires(*old(handler), (r, o)),
    ensures
        *final(handler) == *old(handler),
        call_ensures(*old(handler), event, r),
        r is Ok ==> r == Ok::<(), Error>(()),
{
    let r = handler(event.0, event.1);
    assert(r is Ok ==> r->Ok_0 == ());
    r
}

fn hand_over<H>(events: &Vec<FrameEvent>, handler: &mut H) -> (r: Result<(), Error>) where
    H: FnMut(Result<FrameByte, ErrorKind>, usize) -> Result<(), Error>,

    requires
        forall|r: Result<FrameByte, ErrorKind>, o: usize| call_requires(*old(handler), (r, o)),
    ensures
        *final(handler) == *old(handler),
        match r {
            Ok(_) => accepts(*old(handler), events@),
            Err(e) => stops(*old(handler), events@, e),
        },
{
    let mut i: usize = 0;
    while i < events.len()
        invariant
            i <= events@.len(),
            *handler == *old(handler),
            forall|r: Result<FrameByte, ErrorKind>, o: usize| call_requires(*handler, (r, o)),
            accepts(*old(handler), events@.take(i as int)),
        decreases events@.len() - i,
    {
        let event = events[i];
        match emit(event, handler) {
            Ok(_) => {},
            Err(e) => {
                return Err(e);
            },
        }
        proof {
            let next = events@.take(i + 1);
            assert forall|k: int| 0 <= k < next.len() implies call_ensures(
                *old(handler),
                #[trigger] next[k],
                Ok::<(), Error>(()),
            ) by {
                if k < i {
                    assert(next[k] == events@.take(i as int)[k]);
                }
            }
        }
        i = i + 1;
    }
    assert(events@.take(i as int) =~= events@);
    Ok(())
}

/// Collects what the frame at `bytes[base..base + 16]` gives when it starts
/// under `stream_id`, and the stream ID in effect after it.
pub fn collect_frame(bytes: &[u8], base: usize, stream_id: Option<StreamId>) -> (r: (
    Vec<FrameEvent>,
    Option<StreamId>,
))
    requires
        base + 16 <= bytes@.len(),
    ensures
        r.0@ == frame_events_at(bytes@.subrange(base as int, base + 16), stream_id, base),
        r.1 == frame_final_id(bytes@.subrange(base as int, base + 16), stream_id),
{
    let ghost frame = bytes@.subrange(base as int, base + 16);
    let len = bytes.len();
    let mut events: Vec<FrameEvent> = Vec::new();
    let mut aux_byte = bytes[base + 15];
    assert(frame[15] == aux_byte && frame[14] == bytes@[base + 14]);
    // If byte 14 holds an ID, its AUX bit has to be zero.
    if aux_byte & 0x80 == 0x80 && bytes[base + 14] & 0x01 == 0x01 {
        events.push((Err(ErrorKind::InvalidAuxByte(aux_byte)), base + 15));
        aux_byte = aux_byte & 0x7F;
    }
    assert(events@ =~= aux_events(frame, base));
    let mut cur_stream = stream_id;
    let mut next_stream: Option<StreamId> = None;
    let mut delayed = false;
    let mut i: usize = 0;
    while i < 15
        invariant
            i <= 15,
            base + 16 <= bytes@.len() <= usize::MAX,
            frame == bytes@.subrange(base as int, base + 16),
            aux_byte == effective_aux(frame),
            events@ == events_upto(frame, stream_id, i as int, base),
            cur_stream == stream_before(frame, stream_id, i as int) || (delayed && i == 15),
            delayed <==> i >= 1 && slot_at(frame, i - 1) == (Slot::Id {
                id: slot_at(frame, i - 1)->id,
                delayed: true,
            }),
            delayed ==> next_stream == Some(stream_id_of(slot_at(frame, i - 1)->id)),
        decreases 15 - i,
    {
        let byte = bytes[base + i];
        assert(byte == frame[i as int]);
        if i % 2 == 0 {
            // Even byte: ID change or data.
            let shift: u8 = (i / 2) as u8;
            let aux_bit = (aux_byte >> shift) & 0x01;
            if byte & 0x01 == 0x01 {
                if byte == 0xFF {
                    events.push((Err(ErrorKind::InvalidStreamId(0x7F)), base + i));
                }
                proof {
                    lemma_reserved_id(byte);
                }
                if aux_bit == 1 {
                    next_stream = Some(StreamId::from(byte >> 1));
                    delayed = true;
                } else {
                    cur_stream = Some(StreamId::from(byte >> 1));
                }
            } else {
                events.push((Ok(FrameByte { id: cur_stream, data: (byte & 0xFE) | aux_bit }), base + i));
            }
        } else {
            // Odd byte: data only.
            events.push((Ok(FrameByte { id: cur_stream, data: byte }), base + i));
            if delayed {
                cur_stream = next_stream;
                delayed = false;
            }
        }
        assert(events@ =~= events_upto(frame, stream_id, i as int, base) + slot_events(
            frame,
            stream_id,
            i as int,
            base,
        ));
        i = i + 1;
    }
    proof {
        lemma_last_id_is_immediate(frame);
    }
    (events, cur_stream)
}

/// Parse a single TWP frame.
///
/// Hands each byte of data and each error of `frame` to `handler`, in
/// order, with its offset relative to the frame.  `stream_id` is the stream
/// ID in effect at the start of the frame; the one in effect at its end is
/// returned, typically to be used as the `stream_id` of the next frame.
///
/// Parsing stops at the first error that `handler` returns, and that error
/// is returned.
pub fn parse_frame<H>(frame: &[u8; 16], stream_id: Option<StreamId>, handler: H) -> (r: Result<
    Option<StreamId>,
    Error,
>) where H: FnMut(Result<FrameByte, ErrorKind>, usize) -> Result<(), Error>
    requires
        forall|r: Result<FrameByte, ErrorKind>, o: usize| call_requires(handler, (r, o)),
    ensures
        match r {
            Ok(id) => id == frame_final_id(frame@, stream_id) && accepts(
                handler,
                frame_events(frame@, stream_id),
            ),
            Err(e) => stops(handler, frame_events(frame@, stream_id), e),
        },
{
    let mut handler = handler;
    let bytes = frame.as_slice();
    assert(bytes@.subrange(0, 16) =~= frame@);
    let (events, id) = collect_frame(bytes, 0, stream_id);
    match hand_over(&events, &mut handler) {
        Ok(_) => Ok(id),
        Err(e) => Err(e),
    }
}

/// Parse a series of TWP frames.
///
/// Use `LayerParser` if the byte trace stream contains Frame Sync or
/// Halfword Sync packets as `parse_frames` assumes `frames` consists of a
/// contiguous array of frames.
///
/// Hands each byte of data and each error to `handler`, in order, with its
/// offset relative to the start of `frames`; bytes left over after the last
/// whole frame are reported as a partial frame.  See [`parse_frame`] for
/// more on `handler` and `stream_id`.
pub fn parse_frames<H>(frames: &[u8], stream_id: Option<StreamId>, handler: H) -> (r: Result<
    Option<StreamId>,
    Error,
>) where H: FnMut(Result<FrameByte, ErrorKind>, usize) -> Result<(), Error>
    requires
        forall|r: Result<FrameByte, ErrorKind>, o: usize| call_requires(handler, (r, o)),
    ensures
        match r {
            Ok(id) => id == id_after(frames@, stream_id, frames@.len() as int / 16) && accepts(
                handler,
                frames_events(frames@, stream_id),
            ),
            Err(e) => stops(handler, frames_events(frames@, stream_id), e),
        },
{
    let mut h = handler;
    let mut id = stream_id;
    let count = frames.len() / 16;
    let mut k: usize = 0;
    while k < count
        invariant
            k <= count,
            count == frames@.len() / 16,
            frames@.len() <= usize::MAX,
            h == handler,
            forall|r: Result<FrameByte, ErrorKind>, o: usize| call_requires(handler, (r, o)),
            id == id_after(frames@, stream_id, k as int),
            accepts(handler, whole_events(frames@, stream_id, k as int)),
        decreases count - k,
    {
        let ghost before = whole_events(frames@, stream_id, k as int);
        assert(16 * k + 16 <= frames@.len());
        let ghost here = frame_events_at(chunk(frames@, k as int), id, (16 * k) as usize);
        let (events, next_id) = collect_frame(frames, 16 * k, id);
        assert(events@ == here);
        assert(whole_events(frames@, stream_id, k + 1) == before + here);
        match hand_over(&events, &mut h) {
            Ok(_) => {},
            Err(e) => {
                proof {
                    lemma_stops_after(handler, before, here, e);
                    let rest = lemma_whole_events_split(
                        frames@,
                        stream_id,
                        k + 1,
                        count as int,
                    );
                    lemma_stops_extend(handler, before + here, rest, e);
                    assert(whole_events(frames@, stream_id, count as int) == before + here
                        + rest);
                    lemma_stops_extend(
                        handler,
                        whole_events(frames@, stream_id, count as int),
                        partial_events(frames@),
                        e,
                    );
                }
                return Err(e);
            },
        }
        proof {
            lemma_accepts_concat(handler, before, here);
        }
        id = next_id;
        k = k + 1;
    }
    let remainder = frames.len() % 16;
    let mut last: Vec<FrameEvent> = Vec::new();
    if remainder > 0 {
        last.push((Err(ErrorKind::PartialFrame(remainder)), frames.len() - remainder));
    }
    assert(last@ =~= partial_events(frames@));
    let ghost whole = whole_events(frames@, stream_id, count as int);
    match hand_over(&last, &mut h) {
        Ok(_) => {
            proof {
                lemma_accepts_concat(handler, whole, last@);
            }
            Ok(id)
        },
        Err(e) => {
            proof {
                lemma_stops_after(handler, whole, last@, e);
            }
            Err(e)
        },
    }
}

/// Number of bytes of data among `events`.
pub open spec fn data_count(events: Seq<FrameEvent>) -> nat
    decreases events.len(),
{
    if events.len() == 0 {
        0
    } else {
        data_count(events.drop_last()) + if events.last().0 is Ok {
            1nat
        } else {
            0nat
        }
    }
}

/// Number of IDs among the first `count` positions of `frame`.
pub open spec fn id_count(frame: Seq<u8>, count: int) -> nat
    decreases count,
{
    if count <= 0 {
        0
    } else {
        id_count(frame, count - 1) + if slot_at(frame, count - 1) is Id {
            1nat
        } else {
            0nat
        }
    }
}

/// `event` reports a partial frame.
pub open spec fn is_partial_frame(event: FrameEvent) -> bool {
    event.0 is Err && event.0->Err_0 is PartialFrame
}

proof fn lemma_data_count_concat(a: Seq<FrameEvent>, b: Seq<FrameEvent>)
    ensures
        data_count(a + b) == data_count(a) + data_count(b),
    decreases b.len(),
{
    if b.len() == 0 {
        assert(a + b =~= a);
    } else {
        lemma_data_count_concat(a, b.drop_last());
        assert((a + b).drop_last() =~= a + b.drop_last());
        assert((a + b).last() == b.last());
    }
}

proof fn lemma_data_count_upto(frame: Seq<u8>, stream_id: Option<StreamId>, count: int, base: usize)
    requires
        0 <= count <= 15,
    ensures
        data_count(events_upto(frame, stream_id, count, base)) == count - id_count(frame, count),
    decreases count,
{
    reveal_with_fuel(data_count, 2);
    if count > 0 {
        lemma_data_count_upto(frame, stream_id, count - 1, base);
        lemma_data_count_concat(
            events_upto(frame, stream_id, count - 1, base),
            slot_events(frame, stream_id, count - 1, base),
        );
        let here = slot_events(frame, stream_id, count - 1, base);
        if here.len() == 1 {
            assert(here.drop_last() =~= Seq::<FrameEvent>::empty());
        }
    } else {
        let here = aux_events(frame, base);
        if here.len() == 1 {
            assert(here.drop_last() =~= Seq::<FrameEvent>::empty());
        }
    }
}

/// A frame gives as many bytes of data as it has positions that hold no
/// ID: fifteen less the number of IDs.
pub proof fn lemma_data_count(frame: Seq<u8>, stream_id: Option<StreamId>)
    requires
        frame.len() == 16,
    ensures
        data_count(frame_events(frame, stream_id)) == 15 - id_count(frame, 15),
{
    lemma_data_count_upto(frame, stream_id, 15, 0);
}

proof fn lemma_events_upto_contains(
    frame: Seq<u8>,
    stream_id: Option<StreamId>,
    pos: int,
    count: int,
    base: usize,
    event: FrameEvent,
)
    requires
        0 <= pos < count,
        slot_events(frame, stream_id, pos, base).contains(event),
    ensures
        events_upto(frame, stream_id, count, base).contains(event),
    decreases count,
{
    let before = events_upto(frame, stream_id, count - 1, base);
    let here = slot_events(frame, stream_id, count - 1, base);
    if pos == count - 1 {
        let k = choose|k: int| 0 <= k < here.len() && here[k] == event;
        assert((before + here)[before.len() + k] == event);
    } else {
        lemma_events_upto_contains(frame, stream_id, pos, count - 1, base, event);
        let k = choose|k: int| 0 <= k < before.len() && before[k] == event;
        assert((before + here)[k] == event);
    }
}

/// A data byte at an even position is handed on with its lowest bit taken
/// from the AUX byte: the bit of the AUX byte that belongs to position `pos`
/// replaces bit 0 of the byte in the frame.
pub proof fn lemma_even_data_byte(frame: Seq<u8>, stream_id: Option<StreamId>, pos: int)
    requires
        frame.len() == 16,
        0 <= pos <= 14,
        pos % 2 == 0,
        frame[pos] & 0x01 == 0,
    ensures
        frame_events(frame, stream_id).contains(
            (
                Ok(
                    FrameByte {
                        data: (frame[pos] & 0xFE) | ((frame[15] >> ((pos / 2) as u8)) & 1),
                        id: stream_before(frame, stream_id, pos),
                    },
                ),
                pos as usize,
            ),
        ),
{
    lemma_aux_masked(frame[15], (pos / 2) as u8);
    lemma_data_byte(frame[14]);
    lemma_data_byte(frame[pos]);
    let here = slot_events(frame, stream_id, pos, 0);
    let event = here[0];
    assert(here.contains(event));
    lemma_events_upto_contains(frame, stream_id, pos, 15, 0, event);
}

/// None of `events` reports a partial frame.
pub open spec fn no_partial_frame(events: Seq<FrameEvent>) -> bool {
    forall|i: int| 0 <= i < events.len() ==> !is_partial_frame(#[trigger] events[i])
}

proof fn lemma_no_partial_concat(a: Seq<FrameEvent>, b: Seq<FrameEvent>)
    requires
        no_partial_frame(a),
        no_partial_frame(b),
    ensures
        no_partial_frame(a + b),
{
    assert forall|i: int| 0 <= i < (a + b).len() implies !is_partial_frame(
        #[trigger] (a + b)[i],
    ) by {
        if i < a.len() {
            assert((a + b)[i] == a[i]);
        } else {
            assert((a + b)[i] == b[i - a.len()]);
        }
    }
}

proof fn lemma_no_partial_in_frame(
    frame: Seq<u8>,
    stream_id: Option<StreamId>,
    count: int,
    base: usize,
)
    requires
        0 <= count,
    ensures
        no_partial_frame(events_upto(frame, stream_id, count, base)),
    decreases count,
{
    if count > 0 {
        lemma_no_partial_in_frame(frame, stream_id, count - 1, base);
        lemma_no_partial_concat(
            events_upto(frame, stream_id, count - 1, base),
            slot_events(frame, stream_id, count - 1, base),
        );
    }
}

proof fn lemma_no_partial_in_whole(bytes: Seq<u8>, stream_id: Option<StreamId>, count: int)
    requires
        0 <= count,
    ensures
        no_partial_frame(whole_events(bytes, stream_id, count)),
    decreases count,
{
    if count > 0 {
        let base = (16 * (count - 1)) as usize;
        lemma_no_partial_in_whole(bytes, stream_id, count - 1);
        lemma_no_partial_in_frame(
            chunk(bytes, count - 1),
            id_after(bytes, stream_id, count - 1),
            15,
            base,
        );
        lemma_no_partial_concat(
            whole_events(bytes, stream_id, count - 1),
            frame_events_at(chunk(bytes, count - 1), id_after(bytes, stream_id, count - 1), base),
        );
    }
}

/// Bytes left over after the last whole frame are reported once, as the
/// last event, with their number and the offset of the first of them; no
/// partial frame is reported where nothing is left over.
pub proof fn lemma_partial_frame_once(bytes: Seq<u8>, stream_id: Option<StreamId>)
    ensures
        ({
            let events = frames_events(bytes, stream_id);
            let rest = bytes.len() % 16;
            if rest == 0 {
                no_partial_frame(events)
            } else {
                &&& events.len() > 0
                &&& events.last() == (
                    Err::<FrameByte, ErrorKind>(ErrorKind::PartialFrame(rest as usize)),
                    (bytes.len() - rest) as usize,
                )
                &&& no_partial_frame(events.drop_last())
            }
        }),
{
    let whole = whole_events(bytes, stream_id, bytes.len() as int / 16);
    lemma_no_partial_in_whole(bytes, stream_id, bytes.len() as int / 16);
    if bytes.len() % 16 == 0 {
        assert(frames_events(bytes, stream_id) =~= whole);
    } else {
        assert(frames_events(bytes, stream_id).drop_last() =~= whole);
    }
}

} // verus!
