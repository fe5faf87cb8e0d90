//! Decodes a TWP byte stream into the bytes of its streams.
//!
//! [`decode_frame`] and [`decode_frames`] decode frames that follow one
//! another without anything in between.  [`FrameDecoder`] decodes a stream
//! in which frame synchronization and padding packets may occur, takes the
//! stream in pieces of any size, and gives each byte the offset that it has
//! in the stream.  Stream IDs are plain numbers here.

use crate::handler::{accepts, hand_over, lemma_accepts_concat, lemma_stops_after, lemma_stops_extend, stops};
use crate::twp::error::ErrorKind;
use crate::twp::frame::chunk;
pub use crate::twp::frame::FSYNC;
use crate::twp::frame_parser::{
    collect_frame,
    events_upto,
    frame_events,
    frame_events_at,
    frame_final_id,
    frames_events,
    id_after,
    lemma_whole_events_split,
    partial_events,
    stream_id_of,
    stream_id_value,
    whole_events,
    FrameEvent,
    StreamId,
};
use crate::twp::layer_parser::{Layer, LayerParser, LayerResult};
use vstd::prelude::*;

verus! {

/// Why decoding failed.
#[derive(Debug, PartialEq, Eq, Copy, Clone)]
pub enum ErrorReason {
    /// The reserved stream ID `0x7F` was found.
    InvalidStreamId(u8),
    /// The AUX byte marks the last position of the frame as a delayed ID.
    InvalidAuxByte(u8),
    /// A frame of less than sixteen bytes.
    PartialFrame(usize),
    /// The handler asked for decoding to stop.
    Stop,
}

/// An error found while decoding, or returned by a handler.
#[derive(Debug, PartialEq, Eq, Copy, Clone)]
pub struct Error {
    /// Offset in the stream at which the error was found.
    pub offset: usize,
    pub reason: ErrorReason,
}

/// A byte of data of a stream.
#[derive(Debug, PartialEq, Eq, Copy, Clone)]
pub struct Data {
    /// ID of the stream, if one is known.
    pub id: Option<u8>,
    pub data: u8,
    /// Offset of the byte in the TWP stream.
    pub offset: usize,
}

/// What a decoder hands to its handler.
pub type DataResult = Result<Data, Error>;

/// The stream ID that the number `id` stands for, if there is one.
pub open spec fn to_stream_id(id: Option<u8>) -> Option<StreamId> {
    match id {
        Some(i) => Some(stream_id_of(i)),
        None => None,
    }
}

/// The number that stands for the stream ID `id`, if there is one.
pub open spec fn to_number(id: Option<StreamId>) -> Option<u8> {
    match id {
        Some(i) => Some(stream_id_value(i)),
        None => None,
    }
}

/// The reason that stands for `kind`.  The kinds that a frame never gives
/// stand for `Stop`.
pub open spec fn reason_of(kind: ErrorKind) -> ErrorReason {
    match kind {
        ErrorKind::InvalidStreamId(id) => ErrorReason::InvalidStreamId(id),
        ErrorKind::InvalidAuxByte(byte) => ErrorReason::InvalidAuxByte(byte),
        ErrorKind::PartialFrame(size) => ErrorReason::PartialFrame(size),
        _ => ErrorReason::Stop,
    }
}

/// What the decoder makes of what the frame parser finds; the offset is
/// `offset`.
pub open spec fn to_data(event: FrameEvent, offset: usize) -> DataResult {
    match event.0 {
        Ok(byte) => Ok(Data { id: to_number(byte.id), data: byte.data, offset }),
        Err(kind) => Err(Error { offset, reason: reason_of(kind) }),
    }
}

/// What the decoder makes of `events`, with their offsets as they are.
pub open spec fn to_data_seq(events: Seq<FrameEvent>) -> Seq<DataResult> {
    Seq::new(events.len(), |i: int| to_data(events[i], events[i].1))
}

/// What the decoder makes of the events of a frame, whose offsets are
/// positions in the frame: the offset of each is that of the byte at its
/// position, as `offsets` gives it.
pub open spec fn to_data_at(events: Seq<FrameEvent>, offsets: Seq<usize>) -> Seq<DataResult> {
    Seq::new(events.len(), |i: int| to_data(events[i], offsets[events[i].1 as int]))
}

fn number_of(id: Option<StreamId>) -> (r: Option<u8>)
    ensures
        r == to_number(id),
{
    match id {
        Some(i) => Some(u8::from(i)),
        None => None,
    }
}

fn stream_id_for(id: Option<u8>) -> (r: Option<StreamId>)
    ensures
        r == to_stream_id(id),
{
    match id {
        Some(i) => Some(StreamId::from(i)),
        None => None,
    }
}

fn convert(event: FrameEvent, offset: usize) -> (r: DataResult)
    ensures
        r == to_data(event, offset),
{
    match event.0 {
        Ok(byte) => Ok(Data { id: number_of(byte.id), data: byte.data, offset }),
        Err(kind) => Err(
            Error {
                offset,
                reason: match kind {
                    ErrorKind::InvalidStreamId(id) => ErrorReason::InvalidStreamId(id),
                    ErrorKind::InvalidAuxByte(byte) => ErrorReason::InvalidAuxByte(byte),
                    ErrorKind::PartialFrame(size) => ErrorReason::PartialFrame(size),
                    _ => ErrorReason::Stop,
                },
            },
        ),
    }
}

fn convert_all(events: &Vec<FrameEvent>) -> (r: Vec<DataResult>)
    ensures
        r@ == to_data_seq(events@),
{
    let mut out: Vec<DataResult> = Vec::new();
    let mut i: usize = 0;
    while i < events.len()
        invariant
            i <= events@.len(),
            out@ == to_data_seq(events@.take(i as int)),
        decreases events@.len() - i,
    {
        let event = events[i];
        out.push(convert(event, event.1));
        assert(out@ =~= to_data_seq(events@.take(i + 1)));
        i = i + 1;
    }
    assert(events@.take(i as int) =~= events@);
    out
}

/// Decode a single frame of data.
///
/// Hands each byte of data and each error of `frame` to `handler`, in
/// order, with its offset in the frame.  `stream_id` is the stream ID in
/// effect at the start of the frame; the one in effect at its end is
/// returned.  Decoding stops at the first error that `handler` returns, and
/// that error is returned.
pub fn decode_frame<H>(frame: &[u8; 16], stream_id: Option<u8>, handler: H) -> (r: Result<
    Option<u8>,
    Error,
>) where H: FnMut(DataResult) -> Result<(), Error>
    requires
        forall|a: DataResult| call_requires(handler, (a,)),
    ensures
        match r {
            Ok(id) => id == to_number(frame_final_id(frame@, to_stream_id(stream_id))) && accepts(
                handler,
                to_data_seq(frame_events(frame@, to_stream_id(stream_id))),
            ),
            Err(e) => stops(
                handler,
                to_data_seq(frame_events(frame@, to_stream_id(stream_id))),
                e,
            ),
        },
{
    let mut h = handler;
    let bytes = frame.as_slice();
    assert(bytes@.subrange(0, 16) =~= frame@);
    let (events, id) = collect_frame(bytes, 0, stream_id_for(stream_id));
    let converted = convert_all(&events);
    match hand_over(&converted, &mut h) {
        Ok(_) => Ok(number_of(id)),
        Err(e) => Err(e),
    }
}

proof fn lemma_to_data_concat(a: Seq<FrameEvent>, b: Seq<FrameEvent>)
    ensures
        to_data_seq(a + b) == to_data_seq(a) + to_data_seq(b),
{
    assert(to_data_seq(a + b) =~= to_data_seq(a) + to_data_seq(b));
}

/// Decode a series of frames.
///
/// `frames` holds frames that follow one another; bytes left over after
/// the last whole frame are reported as a partial frame.  Offsets are
/// relative to the start of `frames`.  See [`decode_frame`] for more on
/// `handler` and `stream_id`.
pub fn decode_frames<H>(frames: &[u8], stream_id: Option<u8>, handler: H) -> (r: Result<
    Option<u8>,
    Error,
>) where H: FnMut(DataResult) -> Result<(), Error>
    requires
        forall|a: DataResult| call_requires(handler, (a,)),
    ensures
        match r {
            Ok(id) => id == to_number(
                id_after(frames@, to_stream_id(stream_id), frames@.len() as int / 16),
            ) && accepts(handler, to_data_seq(frames_events(frames@, to_stream_id(stream_id)))),
            Err(e) => stops(
                handler,
                to_data_seq(frames_events(frames@, to_stream_id(stream_id))),
                e,
            ),
        },
{
    let mut h = handler;
    let first = stream_id_for(stream_id);
    let mut id = first;
    let count = frames.len() / 16;
    let mut k: usize = 0;
    assert(to_data_seq(whole_events(frames@, first, 0)) =~= Seq::<DataResult>::empty());
    while k < count
        invariant
            k <= count,
            count == frames@.len() / 16,
            frames@.len() <= usize::MAX,
            h == handler,
            first == to_stream_id(stream_id),
            forall|a: DataResult| call_requires(handler, (a,)),
            id == id_after(frames@, first, k as int),
            accepts(handler, to_data_seq(whole_events(frames@, first, k as int))),
        decreases count - k,
    {
        let ghost before = whole_events(frames@, first, k as int);
        assert(16 * k + 16 <= frames@.len());
        let ghost here = frame_events_at(chunk(frames@, k as int), id, (16 * k) as usize);
        let (events, next_id) = collect_frame(frames, 16 * k, id);
        let converted = convert_all(&events);
        assert(whole_events(frames@, first, k + 1) == before + here);
        proof {
            lemma_to_data_concat(before, here);
        }
        match hand_over(&converted, &mut h) {
            Ok(_) => {},
            Err(e) => {
                proof {
                    lemma_stops_after(handler, to_data_seq(before), to_data_seq(here), e);
                    let rest = lemma_whole_events_split(frames@, first, k + 1, count as int);
                    lemma_to_data_concat(before + here, rest);
                    lemma_stops_extend(
                        handler,
                        to_data_seq(before + here),
                        to_data_seq(rest),
                        e,
                    );
                    let whole = whole_events(frames@, first, count as int);
                    assert(whole == before + here + rest);
                    lemma_to_data_concat(whole, partial_events(frames@));
                    lemma_stops_extend(
                        handler,
                        to_data_seq(whole),
                        to_data_seq(partial_events(frames@)),
                        e,
                    );
                }
                return Err(e);
            },
        }
        proof {
            lemma_accepts_concat(handler, to_data_seq(before), to_data_seq(here));
        }
        id = next_id;
        k = k + 1;
    }
    let remainder = frames.len() % 16;
    let mut last: Vec<DataResult> = Vec::new();
    if remainder > 0 {
        last.push(
            Err(
                Error {
                    offset: frames.len() - remainder,
                    reason: ErrorReason::PartialFrame(remainder),
                },
            ),
        );
    }
    assert(last@ =~= to_data_seq(partial_events(frames@)));
    let ghost whole = whole_events(frames@, first, count as int);
    proof {
        lemma_to_data_concat(whole, partial_events(frames@));
    }
    match hand_over(&last, &mut h) {
        Ok(_) => {
            proof {
                lemma_accepts_concat(handler, to_data_seq(whole), last@);
            }
            Ok(number_of(id))
        },
        Err(e) => {
            proof {
                lemma_stops_after(handler, to_data_seq(whole), last@, e);
            }
            Err(e)
        },
    }
}

/// What the decoder makes of what the layer parser reports: a frame gives
/// its bytes of data and its errors, with the offsets of the bytes in the
/// stream, and changes the stream ID in effect; a frame that a
/// synchronization packet cuts short gives an error, with the number of
/// bytes dropped, `dropped`, and the offset of the first of them,
/// `dropped_at`; packets give nothing.
pub open spec fn layer_data(
    event: LayerResult,
    id: Option<u8>,
    dropped: usize,
    dropped_at: usize,
) -> (Seq<DataResult>, Option<u8>) {
    match event {
        Ok(Layer::Frame { frame, offsets }) => (
            to_data_at(frame_events(frame@, to_stream_id(id)), offsets@),
            to_number(frame_final_id(frame@, to_stream_id(id))),
        ),
        Ok(_) => (Seq::empty(), id),
        Err(_) => (
            seq![Err(Error { offset: dropped_at, reason: ErrorReason::PartialFrame(dropped) })],
            id,
        ),
    }
}

/// What the decoder makes of a sequence of reports of the layer parser.
pub open spec fn layers_data(
    events: Seq<LayerResult>,
    id: Option<u8>,
    dropped: usize,
    dropped_at: usize,
) -> (Seq<DataResult>, Option<u8>)
    decreases events.len(),
{
    if events.len() == 0 {
        (Seq::empty(), id)
    } else {
        let (d1, id1) = layers_data(events.drop_last(), id, dropped, dropped_at);
        let (d2, id2) = layer_data(events.last(), id1, dropped, dropped_at);
        (d1 + d2, id2)
    }
}

proof fn lemma_event_positions(
    frame: Seq<u8>,
    stream_id: Option<StreamId>,
    count: int,
)
    requires
        0 <= count <= 15,
    ensures
        forall|i: int|
            0 <= i < events_upto(frame, stream_id, count, 0).len() ==> (#[trigger] events_upto(
                frame,
                stream_id,
                count,
                0,
            )[i]).1 < 16,
    decreases count,
{
    let all = events_upto(frame, stream_id, count, 0);
    if count > 0 {
        lemma_event_positions(frame, stream_id, count - 1);
        let before = events_upto(frame, stream_id, count - 1, 0);
        assert forall|i: int| 0 <= i < all.len() implies (#[trigger] all[i]).1 < 16 by {
            if i < before.len() {
                assert(all[i] == before[i]);
            }
        }
    }
}

/// Decodes a TWP stream that comes in pieces.
#[derive(Debug, PartialEq, Eq, Copy, Clone)]
pub struct FrameDecoder {
    /// Finds the frames in the stream.
    pub layers: LayerParser,
    /// The stream ID in effect.
    pub stream_id: Option<u8>,
}

impl FrameDecoder {
    /// The state is one that a decoder can reach.
    pub open spec fn wf(self) -> bool {
        self.layers.wf()
    }

    /// The state of a new decoder.
    pub open spec fn new_spec(aligned: bool, stream_id: Option<u8>) -> FrameDecoder {
        FrameDecoder { layers: LayerParser::new_spec(aligned, true, 0), stream_id }
    }

    /// The state after what the layer parser made of a piece of input, and
    /// what is handed on.
    pub open spec fn after(self, layers: (LayerParser, Seq<LayerResult>)) -> (
        FrameDecoder,
        Seq<DataResult>,
    ) {
        let (data, id) = layers_data(
            layers.1,
            self.stream_id,
            self.layers.frame_idx,
            self.layers.frame_offsets[0],
        );
        (FrameDecoder { layers: layers.0, stream_id: id }, data)
    }

    /// One byte of input: the state after it and what is handed on.
    pub open spec fn step(self, byte: u8) -> (FrameDecoder, Seq<DataResult>) {
        self.after(self.layers.step(byte))
    }

    /// A sequence of bytes of input: the state after them and what is
    /// handed on, in order.
    pub open spec fn run(self, bytes: Seq<u8>) -> (FrameDecoder, Seq<DataResult>)
        decreases bytes.len(),
    {
        if bytes.len() == 0 {
            (self, Seq::empty())
        } else {
            let (s1, e1) = self.run(bytes.drop_last());
            let (s2, e2) = s1.step(bytes.last());
            (s2, e1 + e2)
        }
    }

    /// One byte that is known to be the next byte of the frame.
    pub open spec fn frame_byte_spec(self, byte: u8) -> (FrameDecoder, Seq<DataResult>) {
        let (layers, events) = self.layers.push_spec(byte, self.layers.offset);
        self.after((LayerParser { offset: (layers.offset + 1) as usize, ..layers }, events))
    }

    /// The end of the input.  An AUX byte `0xFF` cannot be told from the
    /// start of a frame synchronization packet before the bytes after it are
    /// seen: where the frame lacks only its AUX byte and bytes `0xFF` are
    /// held back, the first of them is the AUX byte.  Whatever else is held
    /// back is the start of a packet that never ended, and is dropped.  A
    /// frame that is not complete is not handed on.
    pub open spec fn finish_spec(self) -> (FrameDecoder, Seq<DataResult>) {
        let layers = LayerParser { ff_count: 0, ..self.layers };
        if self.layers.frame_idx == 15 && self.layers.ff_count >= 1 {
            self.after(
                layers.push_spec(0xFF, (self.layers.offset - self.layers.ff_count) as usize),
            )
        } else {
            (FrameDecoder { layers, ..self }, Seq::empty())
        }
    }

    spec fn finish_spec_layers(self) -> (LayerParser, Seq<LayerResult>) {
        LayerParser { ff_count: 0, ..self.layers }.push_spec(
            0xFF,
            (self.layers.offset - self.layers.ff_count) as usize,
        )
    }

    /// A decoder for a stream that starts at offset 0.  `aligned` says
    /// whether the stream starts at the start of a frame; where it does not,
    /// everything up to the first frame synchronization packet is dropped.
    /// `stream_id` is the stream ID in effect at the start.
    pub fn new(aligned: bool, stream_id: Option<u8>) -> (r: FrameDecoder)
        ensures
            r == Self::new_spec(aligned, stream_id),
            r.wf(),
    {
        FrameDecoder { layers: LayerParser::new(aligned, true, 0), stream_id }
    }

    fn convert_frame(
        &mut self,
        frame: &[u8; 16],
        offsets: &[usize; 16],
        out: &mut Vec<DataResult>,
    )
        ensures
            final(self).layers == old(self).layers,
            final(out)@ == old(out)@ + to_data_at(
                frame_events(frame@, to_stream_id(old(self).stream_id)),
                offsets@,
            ),
            final(self).stream_id == to_number(
                frame_final_id(frame@, to_stream_id(old(self).stream_id)),
            ),
    {
        let bytes = frame.as_slice();
        assert(bytes@.subrange(0, 16) =~= frame@);
        let (events, id) = collect_frame(bytes, 0, stream_id_for(self.stream_id));
        proof {
            lemma_event_positions(frame@, to_stream_id(self.stream_id), 15);
        }
        let mut i: usize = 0;
        assert(old(out)@ + to_data_at(events@.take(0), offsets@) =~= old(out)@);
        while i < events.len()
            invariant
                i <= events@.len(),
                forall|k: int| 0 <= k < events@.len() ==> (#[trigger] events@[k]).1 < 16,
                out@ == old(out)@ + to_data_at(events@.take(i as int), offsets@),
            decreases events@.len() - i,
        {
            let event = events[i];
            out.push(convert(event, offsets[event.1]));
            assert(out@ =~= old(out)@ + to_data_at(events@.take(i + 1), offsets@));
            i = i + 1;
        }
        assert(events@.take(i as int) =~= events@);
        self.stream_id = number_of(id);
    }

    fn convert_layers(&mut self, events: &Vec<LayerResult>, dropped: usize, dropped_at: usize) -> (out:
        Vec<DataResult>)
        ensures
            final(self).layers == old(self).layers,
            (out@, final(self).stream_id) == layers_data(
                events@,
                old(self).stream_id,
                dropped,
                dropped_at,
            ),
    {
        let mut out: Vec<DataResult> = Vec::new();
        let mut i: usize = 0;
        while i < events.len()
            invariant
                i <= events@.len(),
                self.layers == old(self).layers,
                (out@, self.stream_id) == layers_data(
                    events@.take(i as int),
                    old(self).stream_id,
                    dropped,
                    dropped_at,
                ),
            decreases events@.len() - i,
        {
            proof {
                let next = events@.take(i + 1);
                assert(next.drop_last() =~= events@.take(i as int));
                assert(next.last() == events@[i as int]);
            }
            let ghost before = out@;
            match events[i] {
                Ok(Layer::Frame { frame, offsets }) => {
                    self.convert_frame(&frame, &offsets, &mut out);
                },
                Ok(_) => {
                    assert(out@ =~= before + Seq::<DataResult>::empty());
                },
                Err(_) => {
                    out.push(
                        Err(
                            Error {
                                offset: dropped_at,
                                reason: ErrorReason::PartialFrame(dropped),
                            },
                        ),
                    );
                    assert(out@ =~= before + seq![
                        Err::<Data, Error>(
                            Error { offset: dropped_at, reason: ErrorReason::PartialFrame(dropped) },
                        ),
                    ]);
                },
            }
            i = i + 1;
        }
        assert(events@.take(i as int) =~= events@);
        out
    }

    /// Takes the next bytes of the stream and hands the bytes of data and
    /// the errors found to `handler`, in order.  Stops at the first error
    /// that `handler` returns, and returns that error; the decoder is then
    /// in the state after the byte on which the handler stopped.
    pub fn decode<H>(&mut self, data: &[u8], handler: H) -> (r: Result<(), Error>) where
        H: FnMut(DataResult) -> Result<(), Error>,

        requires
            old(self).wf(),
            old(self).layers.offset + data@.len() <= usize::MAX,
            forall|a: DataResult| call_requires(handler, (a,)),
        ensures
            final(self).wf(),
            match r {
                Ok(_) => *final(self) == old(self).run(data@).0 && accepts(
                    handler,
                    old(self).run(data@).1,
                ),
                Err(e) => stops(handler, old(self).run(data@).1, e) && exists|count: int|
                    0 < count <= data@.len() && *final(self) == old(self).run(
                        #[trigger] data@.take(count),
                    ).0 && stops(handler, old(self).run(data@.take(count)).1, e),
            },
    {
        let mut h = handler;
        let mut i: usize = 0;
        while i < data.len()
            invariant
                i <= data@.len(),
                h == handler,
                forall|a: DataResult| call_requires(handler, (a,)),
                old(self).wf(),
                old(self).layers.offset + data@.len() <= usize::MAX,
                self.wf(),
                self.layers.offset == old(self).layers.offset + i,
                *self == old(self).run(data@.take(i as int)).0,
                accepts(handler, old(self).run(data@.take(i as int)).1),
            decreases data@.len() - i,
        {
            let ghost before = old(self).run(data@.take(i as int)).1;
            proof {
                let next = data@.take(i + 1);
                assert(next.drop_last() =~= data@.take(i as int));
                assert(next.last() == data@[i as int]);
            }
            let dropped = self.layers.frame_idx;
            let dropped_at = self.layers.frame_offsets[0];
            let mut layers: Vec<LayerResult> = Vec::new();
            self.layers.process_byte(data[i], &mut layers);
            self.layers.offset += 1;
            let events = self.convert_layers(&layers, dropped, dropped_at);
            assert(old(self).run(data@.take(i + 1)) == (*self, before + events@));
            match hand_over(&events, &mut h) {
                Ok(_) => {},
                Err(e) => {
                    proof {
                        lemma_stops_after(handler, before, events@, e);
                        let rest = lemma_run_split(*old(self), data@, i + 1);
                        lemma_stops_extend(handler, before + events@, rest, e);
                    }
                    return Err(e);
                },
            }
            proof {
                lemma_accepts_concat(handler, before, events@);
            }
            i = i + 1;
        }
        assert(data@.take(i as int) =~= data@);
        Ok(())
    }

    /// Takes `byte` as the next byte of the frame, without looking for
    /// synchronization or padding packets, and hands what the frame gives to
    /// `handler` once it is complete.
    pub fn process_byte<H>(&mut self, byte: u8, handler: H) -> (r: Result<(), Error>) where
        H: FnMut(DataResult) -> Result<(), Error>,

        requires
            old(self).wf(),
            old(self).layers.offset < usize::MAX,
            forall|a: DataResult| call_requires(handler, (a,)),
        ensures
            *final(self) == old(self).frame_byte_spec(byte).0,
            final(self).wf(),
            match r {
                Ok(_) => accepts(handler, old(self).frame_byte_spec(byte).1),
                Err(e) => stops(handler, old(self).frame_byte_spec(byte).1, e),
            },
    {
        let mut h = handler;
        let dropped = self.layers.frame_idx;
        let dropped_at = self.layers.frame_offsets[0];
        let mut layers: Vec<LayerResult> = Vec::new();
        let offset = self.layers.offset;
        self.layers.frame_byte(byte, offset, &mut layers);
        self.layers.offset += 1;
        assert(layers@ =~= old(self).layers.push_spec(byte, offset).1);
        let events = self.convert_layers(&layers, dropped, dropped_at);
        hand_over(&events, &mut h)
    }

    /// Ends the stream.  Where the frame lacks only its AUX byte and bytes
    /// `0xFF` are held back, the first of them is taken as the AUX byte, and
    /// what the frame gives is handed to `handler`.  Whatever else is held
    /// back is dropped.
    pub fn finish<H>(&mut self, handler: H) -> (r: Result<(), Error>) where
        H: FnMut(DataResult) -> Result<(), Error>,

        requires
            old(self).wf(),
            forall|a: DataResult| call_requires(handler, (a,)),
        ensures
            *final(self) == old(self).finish_spec().0,
            final(self).wf(),
            match r {
                Ok(_) => accepts(handler, old(self).finish_spec().1),
                Err(e) => stops(handler, old(self).finish_spec().1, e),
            },
    {
        let mut h = handler;
        let dropped = self.layers.frame_idx;
        let dropped_at = self.layers.frame_offsets[0];
        let ff_count = self.layers.ff_count;
        self.layers.ff_count = 0;
        let mut layers: Vec<LayerResult> = Vec::new();
        if self.layers.frame_idx == 15 && ff_count >= 1 {
            let offset = self.layers.offset - ff_count;
            self.layers.frame_byte(0xFF, offset, &mut layers);
            assert(layers@ =~= old(self).finish_spec_layers().1);
        }
        let events = self.convert_layers(&layers, dropped, dropped_at);
        hand_over(&events, &mut h)
    }
}

/// What the first `count` bytes give is the start of what all of them
/// give.
proof fn lemma_run_split(s: FrameDecoder, bytes: Seq<u8>, count: int) -> (rest: Seq<DataResult>)
    requires
        0 <= count <= bytes.len(),
    ensures
        s.run(bytes).1 == s.run(bytes.take(count)).1 + rest,
    decreases bytes.len() - count,
{
    if count == bytes.len() {
        assert(bytes.take(count) =~= bytes);
        let rest = Seq::<DataResult>::empty();
        assert(s.run(bytes).1 =~= s.run(bytes).1 + rest);
        rest
    } else {
        let r1 = lemma_run_split(s, bytes.drop_last(), count);
        assert(bytes.drop_last().take(count) =~= bytes.take(count));
        let rest = r1 + s.run(bytes.drop_last()).0.step(bytes.last()).1;
        assert(s.run(bytes).1 =~= s.run(bytes.take(count)).1 + rest);
        rest
    }
}

} // verus!
