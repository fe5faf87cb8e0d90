//! Finds the frames in a TWP byte stream.
//!
//! A trace port sends frames of sixteen bytes.  Between them, and when it
//! is idle inside them, it may send frame synchronization packets
//! (`FF FF FF 7F`), which say where the next frame starts, and padding
//! packets (`FF 7F`), which lie on a sixteen-bit boundary of the frame they
//! interrupt.  [`LayerParser`] takes the stream in pieces of any size, takes
//! those packets out and reports them, and reports each frame once its
//! sixteen bytes are there, together with the offset of each byte in the
//! stream.
//!
//! What the parser does is defined by [`LayerParser::step`], for one byte,
//! and [`LayerParser::run`], for a sequence of bytes.

use crate::handler::{accepts, hand_over, lemma_accepts_concat, lemma_stops_after, lemma_stops_extend, stops};
use crate::twp::error::{Error, ErrorKind};
use vstd::array::{spec_array_fill_for_copy_type, spec_array_update};
use vstd::prelude::*;

verus! {

/// What a TWP stream is made of.
#[derive(Debug, PartialEq, Eq, Copy, Clone)]
pub enum Layer {
    /// Layer T1: Padding packet.  Emitted when the trace port is idle.  Can
    /// be found within a frame or between frames and is always aligned on a
    /// 16-bit boundary.
    Padding { offset: usize },
    /// Layer T2: Frame synchronization packet.  Emitted periodically between
    /// frames.  Used to determine frame alignment within a stream of bytes.
    FrameSync { offset: usize },
    /// Layer T3: Data frame.  Sixteen byte data frame.  Since padding
    /// packets can appear within a frame, a frame's bytes are not always
    /// contiguous: `offsets` holds the offset of each of them.
    Frame { frame: [u8; 16], offsets: [usize; 16] },
}

/// What a layer parser hands to its handler.
pub type LayerResult = Result<Layer, Error>;

/// The state of a layer parser.
#[derive(Debug, PartialEq, Eq, Copy, Clone)]
pub struct LayerParser {
    /// Buffer for the frame that is being collected.
    pub frame: [u8; 16],
    /// Offsets in the stream of the bytes in `frame`.
    pub frame_offsets: [usize; 16],
    /// Number of bytes of the frame collected so far.
    pub frame_idx: usize,
    /// Number of bytes `0xFF` held back.
    pub ff_count: usize,
    /// Whether a frame synchronization packet has been seen.
    pub syncd: bool,
    /// Offset in the stream of the next byte.
    pub offset: usize,
    /// Whether padding packets are looked for.
    pub padding: bool,
}

impl LayerParser {
    /// The state is one that a parser can reach.
    pub open spec fn wf(self) -> bool {
        &&& self.frame_idx < 16
        &&& self.ff_count <= 3
        &&& self.ff_count <= self.offset
    }

    /// The state of a new parser.
    pub open spec fn new_spec(syncd: bool, padding: bool, offset: usize) -> LayerParser {
        LayerParser {
            frame: spec_array_fill_for_copy_type(0u8),
            frame_offsets: spec_array_fill_for_copy_type(0usize),
            frame_idx: 0,
            ff_count: 0,
            syncd,
            offset,
            padding,
        }
    }

    /// The byte `byte`, found at `offset`, is the next byte of the frame;
    /// the frame is reported when it is complete.
    pub open spec fn push_spec(self, byte: u8, offset: usize) -> (LayerParser, Seq<LayerResult>) {
        let frame = spec_array_update(self.frame, self.frame_idx as int, byte);
        let frame_offsets = spec_array_update(self.frame_offsets, self.frame_idx as int, offset);
        if self.frame_idx + 1 == 16 {
            (
                LayerParser { frame, frame_offsets, frame_idx: 0, ..self },
                seq![Ok(Layer::Frame { frame, offsets: frame_offsets })],
            )
        } else {
            (
                LayerParser {
                    frame,
                    frame_offsets,
                    frame_idx: (self.frame_idx + 1) as usize,
                    ..self
                },
                Seq::empty(),
            )
        }
    }

    /// The `count` bytes `0xFF` that end before offset `end` are bytes of
    /// the frame.
    pub open spec fn flush_spec(self, count: nat, end: usize) -> (LayerParser, Seq<LayerResult>)
        decreases count,
    {
        if count == 0 {
            (self, Seq::empty())
        } else {
            let (s1, e1) = self.flush_spec((count - 1) as nat, (end - 1) as usize);
            let (s2, e2) = s1.push_spec(0xFF, (end - 1) as usize);
            (s2, e1 + e2)
        }
    }

    /// The byte `byte` ends a padding packet.
    pub open spec fn is_padding(self, byte: u8) -> bool {
        &&& self.padding
        &&& byte == 0x7F
        &&& self.syncd
        &&& self.ff_count > 0
        &&& (self.frame_idx + self.ff_count + 1) % 2 == 0
    }

    /// One byte of input, found at the parser's offset: the state after it,
    /// without the offset moved on, and what is reported.
    ///
    /// A byte `0xFF` is held back, up to three of them; with three held
    /// back, the oldest is a byte of the frame.  `0x7F` after three bytes
    /// `0xFF` is a frame synchronization packet, which drops a frame that is
    /// not complete.  `0x7F` after one or two bytes `0xFF`, on a sixteen-bit
    /// boundary of the frame, is a padding packet, if the parser looks for
    /// them.  Any other byte is a byte of the frame, after the bytes held
    /// back, once the parser is synchronized, and is dropped with them
    /// before that.
    pub open spec fn byte_spec(self, byte: u8) -> (LayerParser, Seq<LayerResult>) {
        let o = self.offset;
        if byte == 0xFF {
            if self.ff_count < 3 {
                (LayerParser { ff_count: (self.ff_count + 1) as usize, ..self }, Seq::empty())
            } else {
                self.push_spec(0xFF, (o - 3) as usize)
            }
        } else if byte == 0x7F && self.ff_count == 3 {
            (
                LayerParser { syncd: true, ff_count: 0, frame_idx: 0, ..self },
                if self.frame_idx > 0 {
                    seq![
                        Err(Error { kind: ErrorKind::InvalidFrames, offset: o }),
                        Ok(Layer::FrameSync { offset: (o - 3) as usize }),
                    ]
                } else {
                    seq![Ok(Layer::FrameSync { offset: (o - 3) as usize })]
                },
            )
        } else if self.is_padding(byte) {
            let s0 = LayerParser { ff_count: 0, ..self };
            let (s1, e1) = if self.ff_count == 2 {
                s0.push_spec(0xFF, (o - 2) as usize)
            } else {
                (s0, Seq::empty())
            };
            (s1, e1.push(Ok(Layer::Padding { offset: (o - 1) as usize })))
        } else if self.syncd {
            let s0 = LayerParser { ff_count: 0, ..self };
            let (s1, e1) = s0.flush_spec(self.ff_count as nat, o);
            let (s2, e2) = s1.push_spec(byte, o);
            (s2, e1 + e2)
        } else {
            (LayerParser { ff_count: 0, ..self }, Seq::empty())
        }
    }

    /// One byte of input: the state after it and what is reported.
    pub open spec fn step(self, byte: u8) -> (LayerParser, Seq<LayerResult>) {
        let (s, e) = self.byte_spec(byte);
        (LayerParser { offset: (s.offset + 1) as usize, ..s }, e)
    }

    /// A sequence of bytes of input: the state after them and what is
    /// reported, in order.
    pub open spec fn run(self, bytes: Seq<u8>) -> (LayerParser, Seq<LayerResult>)
        decreases bytes.len(),
    {
        if bytes.len() == 0 {
            (self, Seq::empty())
        } else {
            let (s1, e1) = self.run(bytes.drop_last());
            let (s2, e2) = s1.step(bytes.last());
            (s2, e1 + e2)
        }
    }

    /// The end of the input: the bytes `0xFF` held back are bytes of the
    /// frame.
    pub open spec fn finish_spec(self) -> (LayerParser, Seq<LayerResult>) {
        LayerParser { ff_count: 0, ..self }.flush_spec(self.ff_count as nat, self.offset)
    }

    /// A parser for a stream whose first byte has the offset `offset`.
    /// `syncd` says whether the stream starts at the start of a frame;
    /// where it does not, everything up to the first frame synchronization
    /// packet is dropped.  `padding` says whether padding packets are looked
    /// for.
    pub fn new(syncd: bool, padding: bool, offset: usize) -> (r: LayerParser)
        ensures
            r == Self::new_spec(syncd, padding, offset),
            r.wf(),
    {
        LayerParser {
            frame: [0; 16],
            frame_offsets: [0; 16],
            frame_idx: 0,
            ff_count: 0,
            syncd,
            offset,
            padding,
        }
    }

    pub(crate) fn frame_byte(&mut self, byte: u8, offset: usize, events: &mut Vec<LayerResult>)
        requires
            old(self).frame_idx < 16,
        ensures
            (*final(self), final(events)@) == (
                old(self).push_spec(byte, offset).0,
                old(events)@ + old(self).push_spec(byte, offset).1,
            ),
            final(self).frame_idx < 16,
            final(self).ff_count == old(self).ff_count,
            final(self).offset == old(self).offset,
    {
        self.frame[self.frame_idx] = byte;
        self.frame_offsets[self.frame_idx] = offset;
        assert(self.frame =~= spec_array_update(old(self).frame, old(self).frame_idx as int, byte));
        assert(self.frame_offsets =~= spec_array_update(
            old(self).frame_offsets,
            old(self).frame_idx as int,
            offset,
        ));
        self.frame_idx += 1;
        if self.frame_idx == 16 {
            self.frame_idx = 0;
            events.push(Ok(Layer::Frame { frame: self.frame, offsets: self.frame_offsets }));
        }
        assert(events@ =~= old(events)@ + old(self).push_spec(byte, offset).1);
    }

    pub(crate) fn flush(&mut self, count: usize, end: usize, events: &mut Vec<LayerResult>)
        requires
            old(self).frame_idx < 16,
            count <= 3,
            count <= end,
        ensures
            (*final(self), final(events)@) == (
                old(self).flush_spec(count as nat, end).0,
                old(events)@ + old(self).flush_spec(count as nat, end).1,
            ),
            final(self).frame_idx < 16,
            final(self).ff_count == old(self).ff_count,
            final(self).offset == old(self).offset,
    {
        reveal_with_fuel(LayerParser::flush_spec, 4);
        let mut i: usize = 0;
        while i < count
            invariant
                i <= count <= 3,
                count <= end,
                self.frame_idx < 16,
                self.ff_count == old(self).ff_count,
                self.offset == old(self).offset,
                (*self, events@) == (
                    old(self).flush_spec(i as nat, (end - (count - i)) as usize).0,
                    old(events)@ + old(self).flush_spec(
                        i as nat,
                        (end - (count - i)) as usize,
                    ).1,
                ),
            decreases count - i,
        {
            self.frame_byte(0xFF, end - (count - i), events);
            i = i + 1;
        }
    }

    /// Takes one byte of input, found at the parser's offset, and adds what
    /// there is to report to `events`.  The offset is not moved on.
    pub(crate) fn process_byte(&mut self, byte: u8, events: &mut Vec<LayerResult>)
        requires
            old(self).wf(),
        ensures
            (*final(self), final(events)@) == (
                old(self).byte_spec(byte).0,
                old(events)@ + old(self).byte_spec(byte).1,
            ),
            final(self).frame_idx < 16,
            final(self).ff_count <= 3,
            final(self).ff_count <= old(self).ff_count + 1,
            final(self).offset == old(self).offset,
    {
        if byte == 0xFF {
            if self.ff_count < 3 {
                self.ff_count += 1;
                assert(events@ =~= old(events)@ + Seq::<LayerResult>::empty());
            } else {
                self.frame_byte(byte, self.offset - 3, events);
            }
        } else if byte == 0x7F && self.ff_count == 3 {
            self.syncd = true;
            self.ff_count = 0;
            // A frame sync in the middle of a frame: synchronization may have
            // been lost since the one before, and some of the frames since
            // then may be invalid.
            if self.frame_idx > 0 {
                self.frame_idx = 0;
                events.push(Err(Error { kind: ErrorKind::InvalidFrames, offset: self.offset }));
            }
            events.push(Ok(Layer::FrameSync { offset: self.offset - 3 }));
            assert(events@ =~= old(events)@ + old(self).byte_spec(byte).1);
        } else if self.padding && byte == 0x7F && self.syncd && self.ff_count > 0 && ((
        self.frame_idx + self.ff_count + 1) % 2) == 0 {
            // Padding packets are aligned on a 16-bit boundary with respect
            // to a frame.
            let extra_ff = self.ff_count == 2;
            self.ff_count = 0;
            if extra_ff {
                self.frame_byte(0xFF, self.offset - 2, events);
            }
            events.push(Ok(Layer::Padding { offset: self.offset - 1 }));
            assert(events@ =~= old(events)@ + old(self).byte_spec(byte).1);
        } else if self.syncd {
            let ff_count = self.ff_count;
            self.ff_count = 0;
            self.flush(ff_count, self.offset, events);
            self.frame_byte(byte, self.offset, events);
            assert(events@ =~= old(events)@ + old(self).byte_spec(byte).1);
        } else {
            self.ff_count = 0;
            assert(events@ =~= old(events)@ + Seq::<LayerResult>::empty());
        }
    }

    /// Takes the next bytes of the stream and hands what there is to report
    /// to `handler`, in order.  Stops at the first error that `handler`
    /// returns, and returns that error; the parser is then in the state
    /// after the byte on which the handler stopped.
    pub fn parse<H>(&mut self, data: &[u8], handler: H) -> (r: Result<(), Error>) where
        H: FnMut(LayerResult) -> Result<(), Error>,

        requires
            old(self).wf(),
            old(self).offset + data@.len() <= usize::MAX,
            forall|a: LayerResult| call_requires(handler, (a,)),
        ensures
            final(self).wf(),
            match r {
                Ok(_) => *final(self) == old(self).run(data@).0 && accepts(
                    handler,
                    old(self).run(data@).1,
                ),
                Err(e) => stops(handler, old(self).run(data@).1, e) && exists|count: int|
                    0 < count <= data@.len() && *final(self) == old(self).run(
                        #[trigger] data@.take(count),
                    ).0 && stops(handler, old(self).run(data@.take(count)).1, e),
            },
    {
        let mut h = handler;
        let mut i: usize = 0;
        while i < data.len()
            invariant
                i <= data@.len(),
                h == handler,
                forall|a: LayerResult| call_requires(handler, (a,)),
                old(self).wf(),
                old(self).offset + data@.len() <= usize::MAX,
                self.wf(),
                self.offset == old(self).offset + i,
                *self == old(self).run(data@.take(i as int)).0,
                accepts(handler, old(self).run(data@.take(i as int)).1),
            decreases data@.len() - i,
        {
            let ghost before = old(self).run(data@.take(i as int)).1;
            proof {
                let next = data@.take(i + 1);
                assert(next.drop_last() =~= data@.take(i as int));
                assert(next.last() == data@[i as int]);
            }
            let mut events: Vec<LayerResult> = Vec::new();
            self.process_byte(data[i], &mut events);
            self.offset += 1;
            assert(old(self).run(data@.take(i + 1)) == (*self, before + events@));
            match hand_over(&events, &mut h) {
                Ok(_) => {},
                Err(e) => {
                    proof {
                        lemma_stops_after(handler, before, events@, e);
                        let rest = lemma_run_split(*old(self), data@, i + 1);
                        lemma_stops_extend(handler, before + events@, rest, e);
                    }
                    return Err(e);
                },
            }
            proof {
                lemma_accepts_concat(handler, before, events@);
            }
            i = i + 1;
        }
        assert(data@.take(i as int) =~= data@);
        Ok(())
    }

    /// Ends the stream: the bytes `0xFF` that were held back are taken as
    /// bytes of the frame, and the frame is handed to `handler` if that
    /// completes it.
    pub fn finish<H>(&mut self, handler: H) -> (r: Result<(), Error>) where
        H: FnMut(LayerResult) -> Result<(), Error>,

        requires
            old(self).wf(),
            forall|a: LayerResult| call_requires(handler, (a,)),
        ensures
            *final(self) == old(self).finish_spec().0,
            final(self).wf(),
            match r {
                Ok(_) => accepts(handler, old(self).finish_spec().1),
                Err(e) => stops(handler, old(self).finish_spec().1, e),
            },
    {
        let mut h = handler;
        let ff_count = self.ff_count;
        self.ff_count = 0;
        let mut events: Vec<LayerResult> = Vec::new();
        self.flush(ff_count, self.offset, &mut events);
        assert(events@ =~= old(self).finish_spec().1);
        hand_over(&events, &mut h)
    }
}

/// What the first `count` bytes give is the start of what all of them
/// give.
proof fn lemma_run_split(s: LayerParser, bytes: Seq<u8>, count: int) -> (rest: Seq<LayerResult>)
    requires
        0 <= count <= bytes.len(),
    ensures
        s.run(bytes).1 == s.run(bytes.take(count)).1 + rest,
    decreases bytes.len() - count,
{
    if count == bytes.len() {
        assert(bytes.take(count) =~= bytes);
        let rest = Seq::<LayerResult>::empty();
        assert(s.run(bytes).1 =~= s.run(bytes).1 + rest);
        rest
    } else {
        let r1 = lemma_run_split(s, bytes.drop_last(), count);
        assert(bytes.drop_last().take(count) =~= bytes.take(count));
        let rest = r1 + s.run(bytes.drop_last()).0.step(bytes.last()).1;
        assert(s.run(bytes).1 =~= s.run(bytes.take(count)).1 + rest);
        rest
    }
}

/// Something that a stream is made of: a padding packet, a frame
/// synchronization packet, or a frame with its sixteen bytes.
pub enum Item {
    Padding,
    FrameSync,
    Frame(Seq<u8>),
}

/// The bytes of `item` in the stream.
pub open spec fn item_bytes(item: Item) -> Seq<u8> {
    match item {
        Item::Padding => seq![0xFFu8, 0x7Fu8],
        Item::FrameSync => seq![0xFFu8, 0xFFu8, 0xFFu8, 0x7Fu8],
        Item::Frame(bytes) => bytes,
    }
}

/// The bytes of `items`, one after the other.
pub open spec fn items_bytes(items: Seq<Item>) -> Seq<u8>
    decreases items.len(),
{
    if items.len() == 0 {
        Seq::empty()
    } else {
        items_bytes(items.drop_last()) + item_bytes(items.last())
    }
}

/// `event` reports `item`, found at `offset`: a packet with its offset, a
/// frame with its bytes and the offsets of each of them, which follow one
/// another.
pub open spec fn reports(event: LayerResult, item: Item, offset: int) -> bool {
    match item {
        Item::Padding => event == Ok::<Layer, Error>(Layer::Padding { offset: offset as usize }),
        Item::FrameSync => event == Ok::<Layer, Error>(
            Layer::FrameSync { offset: offset as usize },
        ),
        Item::Frame(bytes) => match event {
            Ok(Layer::Frame { frame, offsets }) => {
                &&& frame@ == bytes
                &&& forall|k: int| 0 <= k < 16 ==> #[trigger] offsets@[k] == offset + k
            },
            _ => false,
        },
    }
}

/// A frame that the parser can tell from the packets around it: sixteen
/// bytes, none of them `0xFF`.
pub open spec fn plain_frame(item: Item) -> bool {
    match item {
        Item::Frame(bytes) => bytes.len() == 16 && forall|k: int|
            0 <= k < 16 ==> #[trigger] bytes[k] != 0xFF,
        _ => true,
    }
}

/// The parser is between two frames, synchronized, and holds nothing back.
pub open spec fn between_frames(s: LayerParser) -> bool {
    s.wf() && s.syncd && s.padding && s.ff_count == 0 && s.frame_idx == 0
}

/// Running over a sequence that ends in `byte` is running over what comes
/// before it and then taking `byte`.
pub proof fn lemma_run_push(s: LayerParser, bytes: Seq<u8>, byte: u8)
    ensures
        s.run(bytes.push(byte)) == (
            s.run(bytes).0.step(byte).0,
            s.run(bytes).1 + s.run(bytes).0.step(byte).1,
        ),
{
    assert(bytes.push(byte).drop_last() =~= bytes);
}

/// Running over two sequences, one after the other, is running over the
/// first and going on with the second.
pub proof fn lemma_run_concat(s: LayerParser, a: Seq<u8>, b: Seq<u8>)
    ensures
        s.run(a + b) == (s.run(a).0.run(b).0, s.run(a).1 + s.run(a).0.run(b).1),
    decreases b.len(),
{
    if b.len() == 0 {
        assert(a + b =~= a);
        assert(s.run(a).1 + Seq::<LayerResult>::empty() =~= s.run(a).1);
    } else {
        lemma_run_concat(s, a, b.drop_last());
        assert((a + b).drop_last() =~= a + b.drop_last());
        assert((a + b).last() == b.last());
        let t = s.run(a).0;
        let u = t.run(b.drop_last());
        assert(s.run(a).1 + (u.1 + u.0.step(b.last()).1) =~= (s.run(a).1 + u.1) + u.0.step(
            b.last(),
        ).1);
    }
}

/// A byte `0x7F` that does not follow three bytes `0xFF` is no frame
/// synchronization packet: the parser does not report one and is as
/// synchronized as before.  Unless it ends a padding packet, it is a byte of
/// the frame, after the bytes `0xFF` held back, where the parser is
/// synchronized.
pub proof fn lemma_lone_7f_is_data(s: LayerParser)
    requires
        s.wf(),
        s.ff_count < 3,
    ensures
        s.byte_spec(0x7F).0.syncd == s.syncd,
        forall|i: int|
            0 <= i < s.byte_spec(0x7F).1.len() ==> !(#[trigger] s.byte_spec(0x7F).1[i] matches Ok(
                Layer::FrameSync { .. },
            )),
        s.syncd && !s.is_padding(0x7F) ==> s.byte_spec(0x7F) == ({
            let (s1, e1) = LayerParser { ff_count: 0, ..s }.flush_spec(s.ff_count as nat, s.offset);
            let (s2, e2) = s1.push_spec(0x7F, s.offset);
            (s2, e1 + e2)
        }),
        s.syncd && s.ff_count == 0 ==> s.byte_spec(0x7F) == s.push_spec(0x7F, s.offset),
{
    reveal_with_fuel(LayerParser::flush_spec, 4);
    let s0 = LayerParser { ff_count: 0, ..s };
    if s.syncd && s.ff_count == 0 {
        assert(s0 == s);
        assert(Seq::<LayerResult>::empty() + s.push_spec(0x7F, s.offset).1 =~= s.push_spec(
            0x7F,
            s.offset,
        ).1);
    }
    lemma_flush_reports_frames(s0, s.ff_count as nat, s.offset);
}

/// Bytes of the frame give nothing but frames.
proof fn lemma_flush_reports_frames(s: LayerParser, count: nat, end: usize)
    requires
        count <= 3,
    ensures
        s.flush_spec(count, end).0.syncd == s.syncd,
        forall|i: int|
            0 <= i < s.flush_spec(count, end).1.len() ==> (#[trigger] s.flush_spec(
                count,
                end,
            ).1[i]) matches Ok(Layer::Frame { .. }),
    decreases count,
{
    if count > 0 {
        lemma_flush_reports_frames(s, (count - 1) as nat, (end - 1) as usize);
    }
}

/// The parser has collected the first `count` bytes of `bytes`, which lie
/// at `offset` and after, as the first `count` bytes of a frame.
spec fn collecting(s: LayerParser, t: LayerParser, bytes: Seq<u8>, count: int) -> bool {
    &&& t == (LayerParser {
        frame: t.frame,
        frame_offsets: t.frame_offsets,
        frame_idx: count as usize,
        offset: (s.offset + count) as usize,
        ..s
    })
    &&& forall|k: int| 0 <= k < count ==> #[trigger] t.frame@[k] == bytes[k]
    &&& forall|k: int| 0 <= k < count ==> #[trigger] t.frame_offsets@[k] == s.offset + k
}

proof fn lemma_plain_bytes(s: LayerParser, bytes: Seq<u8>, count: int)
    requires
        between_frames(s),
        bytes.len() == 16,
        forall|k: int| 0 <= k < 16 ==> #[trigger] bytes[k] != 0xFF,
        0 <= count <= 15,
        s.offset + 16 <= usize::MAX,
    ensures
        collecting(s, s.run(bytes.take(count)).0, bytes, count),
        s.run(bytes.take(count)).1 == Seq::<LayerResult>::empty(),
    decreases count,
{
    reveal_with_fuel(LayerParser::flush_spec, 1);
    if count == 0 {
        assert(s.run(bytes.take(0)).0 == s);
    } else {
        lemma_plain_bytes(s, bytes, count - 1);
        let before = bytes.take(count - 1);
        assert(bytes.take(count) =~= before.push(bytes[count - 1]));
        lemma_run_push(s, before, bytes[count - 1]);
        let t = s.run(before).0;
        let u = t.step(bytes[count - 1]).0;
        assert(u.frame@ == t.frame@.update(count - 1, bytes[count - 1]));
        assert(u.frame_offsets@ == t.frame_offsets@.update(count - 1, t.offset));
        assert(s.run(before).1 + t.step(bytes[count - 1]).1 =~= Seq::<LayerResult>::empty());
    }
}

/// A frame between two frames is reported with its bytes and their
/// offsets, and leaves the parser between two frames.
proof fn lemma_frame_item(s: LayerParser, bytes: Seq<u8>)
    requires
        between_frames(s),
        plain_frame(Item::Frame(bytes)),
        s.offset + 16 <= usize::MAX,
    ensures
        between_frames(s.run(bytes).0),
        s.run(bytes).0.offset == s.offset + 16,
        s.run(bytes).1.len() == 1,
        reports(s.run(bytes).1[0], Item::Frame(bytes), s.offset as int),
{
    reveal_with_fuel(LayerParser::flush_spec, 1);
    lemma_plain_bytes(s, bytes, 15);
    let before = bytes.take(15);
    assert(bytes =~= before.push(bytes[15]));
    lemma_run_push(s, before, bytes[15]);
    let t = s.run(before).0;
    let (u, e) = t.step(bytes[15]);
    assert(u.frame@ == t.frame@.update(15, bytes[15]));
    assert(u.frame_offsets@ == t.frame_offsets@.update(15, t.offset));
    assert(s.run(bytes).1 =~= e);
    assert(u.frame@ =~= bytes);
}

/// A padding packet between two frames is reported with its offset, and
/// leaves the parser between two frames.
proof fn lemma_padding_item(s: LayerParser)
    requires
        between_frames(s),
        s.offset + 2 <= usize::MAX,
    ensures
        between_frames(s.run(item_bytes(Item::Padding)).0),
        s.run(item_bytes(Item::Padding)).0.offset == s.offset + 2,
        s.run(item_bytes(Item::Padding)).1 == seq![
            Ok::<Layer, Error>(Layer::Padding { offset: s.offset }),
        ],
{
    let e = Seq::<u8>::empty();
    lemma_run_push(s, e, 0xFF);
    lemma_run_push(s, e.push(0xFF), 0x7F);
    assert(s.run(e) == (s, Seq::<LayerResult>::empty()));
    assert(item_bytes(Item::Padding) =~= e.push(0xFF).push(0x7F));
    let t = s.step(0xFF).0;
    assert(s.step(0xFF).1 =~= Seq::<LayerResult>::empty());
    assert(t.is_padding(0x7F));
    assert(s.run(e.push(0xFF).push(0x7F)).1 =~= seq![
        Ok::<Layer, Error>(Layer::Padding { offset: s.offset }),
    ]);
}

/// A frame synchronization packet between two frames is reported with its
/// offset, and leaves the parser between two frames.
proof fn lemma_sync_item(s: LayerParser)
    requires
        between_frames(s),
        s.offset + 4 <= usize::MAX,
    ensures
        between_frames(s.run(item_bytes(Item::FrameSync)).0),
        s.run(item_bytes(Item::FrameSync)).0.offset == s.offset + 4,
        s.run(item_bytes(Item::FrameSync)).1 == seq![
            Ok::<Layer, Error>(Layer::FrameSync { offset: s.offset }),
        ],
{
    let e = Seq::<u8>::empty();
    lemma_run_push(s, e, 0xFF);
    lemma_run_push(s, e.push(0xFF), 0xFF);
    lemma_run_push(s, e.push(0xFF).push(0xFF), 0xFF);
    lemma_run_push(s, e.push(0xFF).push(0xFF).push(0xFF), 0x7F);
    assert(s.run(e) == (s, Seq::<LayerResult>::empty()));
    assert(item_bytes(Item::FrameSync) =~= e.push(0xFF).push(0xFF).push(0xFF).push(0x7F));
    let t1 = s.step(0xFF).0;
    let t2 = t1.step(0xFF).0;
    let t3 = t2.step(0xFF).0;
    assert(s.step(0xFF).1 =~= Seq::<LayerResult>::empty());
    assert(t1.step(0xFF).1 =~= Seq::<LayerResult>::empty());
    assert(t2.step(0xFF).1 =~= Seq::<LayerResult>::empty());
    assert(s.run(e.push(0xFF).push(0xFF).push(0xFF).push(0x7F)).1 =~= seq![
        Ok::<Layer, Error>(Layer::FrameSync { offset: s.offset }),
    ]);
}

/// Offset in the stream of item number `index` of `items`, when the first
/// lies at offset 0.
pub open spec fn item_offset(items: Seq<Item>, index: int) -> int {
    items_bytes(items.take(index)).len() as int
}

/// A parser that is synchronized and between two frames, on a stream made
/// of frames with any number of padding and frame synchronization packets
/// before, between and after them, reports each packet and each frame, in
/// order: the packets with their offsets, the frames with their bytes as
/// they are and the offset of each byte.  The frames are such that the
/// parser can tell them from packets: none of their bytes is `0xFF`.
pub proof fn lemma_items_reported(s: LayerParser, items: Seq<Item>)
    requires
        between_frames(s),
        forall|i: int| 0 <= i < items.len() ==> plain_frame(#[trigger] items[i]),
        s.offset + items_bytes(items).len() <= usize::MAX,
    ensures
        between_frames(s.run(items_bytes(items)).0),
        s.run(items_bytes(items)).0.offset == s.offset + items_bytes(items).len(),
        s.run(items_bytes(items)).1.len() == items.len(),
        forall|i: int|
            0 <= i < items.len() ==> reports(
                #[trigger] s.run(items_bytes(items)).1[i],
                items[i],
                s.offset + item_offset(items, i),
            ),
    decreases items.len(),
{
    if items.len() > 0 {
        let before = items.drop_last();
        let last = items.last();
        lemma_items_reported(s, before);
        lemma_run_concat(s, items_bytes(before), item_bytes(last));
        let t = s.run(items_bytes(before)).0;
        match last {
            Item::Padding => {
                lemma_padding_item(t);
            },
            Item::FrameSync => {
                lemma_sync_item(t);
            },
            Item::Frame(bytes) => {
                lemma_frame_item(t, bytes);
            },
        }
        let all = s.run(items_bytes(items)).1;
        assert(items.take(items.len() - 1) =~= before);
        assert forall|i: int| 0 <= i < items.len() implies reports(
            #[trigger] all[i],
            items[i],
            s.offset + item_offset(items, i),
        ) by {
            if i < items.len() - 1 {
                assert(all[i] == s.run(items_bytes(before)).1[i]);
                assert(before.take(i) =~= items.take(i));
                assert(before[i] == items[i]);
            } else {
                assert(all[i] == t.run(item_bytes(last)).1[0]);
            }
        }
    }
}

} // verus!
