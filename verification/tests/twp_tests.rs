use stp_core::frame_decoder;
use stp_core::frame_decoder::{DataResult, FrameDecoder, FSYNC};
use stp_core::twp::builder::{insert_fsync, FrameBuilder, FrameBuilderError};
use stp_core::twp::error::{Error, ErrorKind};
use stp_core::twp::frame_parser::{collect_frame, parse_frame, parse_frames, FrameByte, StreamId};
use stp_core::twp::layer_parser::{Layer, LayerParser, LayerResult};
use stp_core::twp::stream_builder::StreamBuilder;

type Event = (Result<FrameByte, ErrorKind>, usize);

fn events_of(frames: &[u8], id: Option<StreamId>) -> (Vec<Event>, Result<Option<StreamId>, Error>) {
    let mut events = Vec::new();
    let r = parse_frames(frames, id, |r, o| {
        events.push((r, o));
        Ok(())
    });
    (events, r)
}

fn data_of(events: &[Event]) -> Vec<(Option<StreamId>, u8)> {
    events
        .iter()
        .filter_map(|e| match e.0 {
            Ok(b) => Some((b.id, b.data)),
            Err(_) => None,
        })
        .collect()
}

fn layers_of(parser: &mut LayerParser, stream: &[u8]) -> Vec<LayerResult> {
    let mut layers = Vec::new();
    parser
        .parse(stream, |l| {
            layers.push(l);
            Ok(())
        })
        .unwrap();
    parser
        .finish(|l| {
            layers.push(l);
            Ok(())
        })
        .unwrap();
    layers
}

fn frame_at(bytes: &[u8], first: usize) -> LayerResult {
    let mut frame = [0u8; 16];
    let mut offsets = [0usize; 16];
    for i in 0..16 {
        frame[i] = bytes[i];
        offsets[i] = first + i;
    }
    Ok(Layer::Frame { frame, offsets })
}

#[test]
fn stream_id_numbers() {
    assert_eq!(StreamId::from(0), StreamId::Null);
    assert_eq!(StreamId::from(0x7D), StreamId::Trigger);
    assert_eq!(StreamId::from(0x7E), StreamId::Data(0x7E));
    assert_eq!(StreamId::from(1), StreamId::Data(1));
    assert_eq!(u8::from(StreamId::Null), 0);
    assert_eq!(u8::from(StreamId::Trigger), 0x7D);
    assert_eq!(u8::from(StreamId::Data(0x42)), 0x42);
    let n: u8 = StreamId::Data(3).into();
    assert_eq!(n, 3);
}

#[test]
fn data_count_is_fifteen_less_ids() {
    let mut frame = [0u8; 16];
    frame[0] = 0x03;
    frame[4] = 0x05;
    frame[14] = 0x07;
    let (events, r) = events_of(&frame, None);
    assert_eq!(r, Ok(Some(StreamId::Data(3))));
    assert_eq!(data_of(&events).len(), 12);
    let (events, _) = events_of(&[0x10; 16], None);
    assert_eq!(data_of(&events).len(), 15);
}

#[test]
fn even_data_byte_takes_its_low_bit_from_aux() {
    let mut frame = [0u8; 16];
    frame[2] = 0x42;
    frame[6] = 0x42;
    frame[14] = 0xFE;
    frame[15] = 0x82;
    let (events, _) = events_of(&frame, Some(StreamId::Data(9))); 
    let data = data_of(&events);
    assert_eq!(data[2], (Some(StreamId::Data(9)), 0x43));
    assert_eq!(data[6], (Some(StreamId::Data(9)), 0x42));
    assert_eq!(data[14], (Some(StreamId::Data(9)), 0xFF));
    assert_eq!(events[2].1, 2);
}

#[test]
fn immediate_and_delayed_ids() {
    let mut frame = [0x10u8; 16];
    frame[0] = 0x03; // ID 1, delayed
    frame[1] = 0xA1;
    frame[2] = 0x05; // ID 2, immediate
    frame[3] = 0xA2;
    frame[15] = 0x01;
    let (events, r) = events_of(&frame, Some(StreamId::Data(7)));
    let data = data_of(&events);
    assert_eq!(data[0], (Some(StreamId::Data(7)), 0xA1));
    assert_eq!(data[1], (Some(StreamId::Data(2)), 0xA2));
    assert_eq!(data[2], (Some(StreamId::Data(2)), 0x10));
    assert_eq!(r, Ok(Some(StreamId::Data(2))));
}

#[test]
fn delayed_id_takes_effect_before_the_next_even_byte() {
    let mut frame = [0x10u8; 16];
    frame[0] = 0x03; // ID 1, delayed
    frame[15] = 0x01;
    let (events, r) = events_of(&frame, None);
    let data = data_of(&events);
    assert_eq!(data[0], (None, 0x10));
    assert_eq!(data[1], (Some(StreamId::Data(1)), 0x10));
    assert_eq!(r, Ok(Some(StreamId::Data(1))));
}

#[test]
fn id_at_last_position_is_immediate() {
    let mut frames = [0u8; 32];
    frames[14] = 0x09;
    frames[15] = 0x80;
    let (events, r) = events_of(&frames, None);
    assert_eq!(events[0], (Err(ErrorKind::InvalidAuxByte(0x80)), 15));
    assert_eq!(r, Ok(Some(StreamId::Data(4))));
    let data = data_of(&events);
    assert_eq!(data.len(), 14 + 15);
    assert_eq!(data[13], (None, 0));
    assert_eq!(data[14], (Some(StreamId::Data(4)), 0));
}

#[test]
fn trigger_and_null_ids() {
    let mut frame = [0u8; 16];
    frame[0] = 0xFB; // 0x7D
    frame[2] = 0x01; // 0
    let (events, r) = events_of(&frame, None);
    let data = data_of(&events);
    assert_eq!(data[0], (Some(StreamId::Trigger), 0));
    assert_eq!(data[1], (Some(StreamId::Null), 0));
    assert_eq!(r, Ok(Some(StreamId::Null)));
}

#[test]
fn partial_frame_is_reported_once() {
    let frames = [0u8; 35];
    let (events, r) = events_of(&frames, None);
    assert_eq!(r, Ok(None));
    let partial: Vec<&Event> = events
        .iter()
        .filter(|e| matches!(e.0, Err(ErrorKind::PartialFrame(_))))
        .collect();
    assert_eq!(partial.len(), 1);
    assert_eq!(events[events.len() - 1], (Err(ErrorKind::PartialFrame(3)), 32));
    let (events, _) = events_of(&[0u8; 32], None);
    assert!(events.iter().all(|e| e.0.is_ok()));
    let (events, _) = events_of(&[0u8; 5], None);
    assert_eq!(events, vec![(Err(ErrorKind::PartialFrame(5)), 0)]);
}

#[test]
fn parse_frame_offsets_are_positions() {
    let mut frame = [0u8; 16];
    frame[0] = 0xFF;
    let mut events = Vec::new();
    let r = parse_frame(&frame, None, |r, o| {
        events.push((r, o));
        Ok(())
    });
    assert_eq!(r, Ok(Some(StreamId::Data(0x7F))));
    assert_eq!(events[0], (Err(ErrorKind::InvalidStreamId(0x7F)), 0));
    assert_eq!(events.len(), 15);
    assert_eq!(
        events[14],
        (
            Ok(FrameByte {
                data: 0,
                id: Some(StreamId::Data(0x7F))
            }),
            14
        )
    );
}

#[test]
fn handler_error_stops_parsing() {
    let frames = [0u8; 32];
    let mut count = 0;
    let r = parse_frames(&frames, None, |_, o| {
        count += 1;
        if o == 3 {
            Err(Error {
                kind: ErrorKind::Stop,
                offset: o,
            })
        } else {
            Ok(())
        }
    });
    assert_eq!(
        r,
        Err(Error {
            kind: ErrorKind::Stop,
            offset: 3
        })
    );
    assert_eq!(count, 4);
}

#[test]
fn collect_frame_at_an_offset() {
    let mut frames = [0u8; 48];
    frames[16] = 0x03;
    frames[17] = 0x55;
    let (events, id) = collect_frame(&frames, 16, None);
    assert_eq!(id, Some(StreamId::Data(1)));
    assert_eq!(events.len(), 14);
    assert_eq!(
        events[0],
        (
            Ok(FrameByte {
                data: 0x55,
                id: Some(StreamId::Data(1))
            }),
            17
        )
    );
}

#[test]
fn builder_missing_data_error() {
    let mut fb = FrameBuilder::new(1);
    assert_eq!(fb.set_id(1), Ok(()));
    assert_eq!(fb.set_id(2), Err(FrameBuilderError::MissingData(1)));
    assert_eq!(fb.set_data(9), Ok(()));
    assert_eq!(fb.set_id(3), Ok(()));
    assert_eq!(fb.set_id(4), Err(FrameBuilderError::MissingData(3)));
    assert_eq!(fb.set_data(8), Ok(()));
    assert_eq!(fb.set_id(5), Ok(()));
    assert_eq!(fb.set_id(6), Err(FrameBuilderError::MissingData(5)));
    let mut exp = [0u8; 16];
    exp[0] = 0x03;
    exp[1] = 0x09;
    exp[2] = 0x07;
    exp[3] = 0x08;
    exp[4] = 0x0B;
    assert_eq!(fb.build(), exp);
}

#[test]
fn builder_refuses_reserved_id_and_writes_nothing() {
    let mut fb = FrameBuilder::new(0);
    assert_eq!(fb.set_id(0x7F), Err(FrameBuilderError::InvalidStreamId(0, 0x7F)));
    assert_eq!(fb.set_data(1), Ok(()));
    assert_eq!(fb.set_id(0x80), Err(FrameBuilderError::InvalidStreamId(0, 0x80)));
    let mut exp = [0u8; 16];
    exp[1] = 0;
    exp[15] = 0x01;
    assert_eq!(fb.build(), exp);
    assert_eq!(FrameBuilder::new(0).build().len(), 0);
}

#[test]
fn builder_id_at_last_position() {
    // Fourteen bytes of data, then an ID at position 14, then data in the
    // next frame.
    let frames = FrameBuilder::new(2)
        .data_span(14, 0x10)
        .immediate_id(3)
        .data(0x11)
        .build();
    assert_eq!(frames.len(), 32);
    assert_eq!(frames[14], 0x07);
    assert_eq!(frames[15], 0x00);
    assert_eq!(frames[16], 0x10);
    assert_eq!(frames[31], 0x01);
    let (events, r) = events_of(&frames, None);
    assert_eq!(r, Ok(Some(StreamId::Data(3))));
    let data = data_of(&events);
    assert_eq!(data[13], (None, 0x10));
    assert_eq!(data[14], (Some(StreamId::Data(3)), 0x11));
}

#[test]
fn builder_round_trip() {
    let frames = FrameBuilder::new(2)
        .id(5)
        .data_span(3, 0xA5)
        .id(6)
        .data(0x01)
        .data(0xFF)
        .data(0x02)
        .delayed_id(7)
        .data(0x33)
        .data(0x44)
        .build();
    let (events, _) = events_of(&frames, None);
    let data = data_of(&events);
    let five = Some(StreamId::Data(5));
    let six = Some(StreamId::Data(6));
    let seven = Some(StreamId::Data(7));
    let exp = vec![
        (five, 0xA5),
        (five, 0xA5),
        (five, 0xA5),
        (six, 0x01),
        (six, 0xFF),
        (six, 0x02),
        (six, 0x33),
        (seven, 0x44),
        (seven, 0),
        (seven, 0),
        (seven, 0),
        (seven, 0),
    ];
    assert_eq!(data, exp);
}

#[test]
fn insert_fsync_puts_in_a_packet() {
    let mut frames = vec![1, 2, 3, 4];
    assert_eq!(insert_fsync(&mut frames, 1), Ok(()));
    assert_eq!(frames, [1, 0xFF, 0xFF, 0xFF, 0x7F, 2, 3, 4]);
    assert_eq!(
        insert_fsync(&mut frames, 8),
        Err(FrameBuilderError::InvalidOffset(8))
    );
    assert_eq!(frames.len(), 8);
    assert_eq!(insert_fsync(&mut frames, 0), Ok(()));
    assert_eq!(&frames[..5], [0xFF, 0xFF, 0xFF, 0x7F, 1]);
}

#[test]
fn layer_parser_reports_what_the_stream_is_made_of() {
    let f1: Vec<u8> = (0u8..16).collect();
    let f2: Vec<u8> = (0x20u8..0x30).collect();
    let f3 = [0x7Fu8; 16];
    let mut stream = vec![0xFF, 0x7F, 0xFF, 0xFF, 0xFF, 0x7F];
    stream.extend_from_slice(&f1);
    stream.extend_from_slice(&f2);
    stream.extend_from_slice(&[0xFF, 0x7F, 0xFF, 0x7F, 0xFF, 0xFF, 0xFF, 0x7F, 0xFF, 0x7F]);
    stream.extend_from_slice(&f3);
    stream.extend_from_slice(&[0xFF, 0x7F]);
    let mut parser = LayerParser::new(true, true, 100);
    let exp = vec![
        Ok(Layer::Padding { offset: 100 }),
        Ok(Layer::FrameSync { offset: 102 }),
        frame_at(&f1, 106),
        frame_at(&f2, 122),
        Ok(Layer::Padding { offset: 138 }),
        Ok(Layer::Padding { offset: 140 }),
        Ok(Layer::FrameSync { offset: 142 }),
        Ok(Layer::Padding { offset: 146 }),
        frame_at(&f3, 148),
        Ok(Layer::Padding { offset: 164 }),
    ];
    assert_eq!(layers_of(&mut parser, &stream), exp);
}

#[test]
fn layer_parser_frame_sync_across_pieces() {
    let mut stream = vec![0u8; 14];
    stream.extend_from_slice(&[0xFF, 0xFF, 0xFF, 0x7F]);
    let frame: Vec<u8> = (1u8..17).collect();
    stream.extend_from_slice(&frame);
    let mut parser = LayerParser::new(false, true, 0);
    let mut layers = Vec::new();
    for piece in stream.chunks(16) {
        parser
            .parse(piece, |l| {
                layers.push(l);
                Ok(())
            })
            .unwrap();
    }
    parser
        .finish(|l| {
            layers.push(l);
            Ok(())
        })
        .unwrap();
    assert_eq!(
        layers,
        vec![Ok(Layer::FrameSync { offset: 14 }), frame_at(&frame, 18)]
    );
}

#[test]
fn lone_7f_is_data() {
    let mut frame = [0x11u8; 16];
    frame[0] = 0x7F;
    frame[5] = 0x7F;
    frame[15] = 0x7F;
    let mut parser = LayerParser::new(true, true, 0);
    assert_eq!(layers_of(&mut parser, &frame), vec![frame_at(&frame, 0)]);
    // Without padding packets, 0x7F after 0xFF is data at any position.
    let mut frame = [0x11u8; 16];
    frame[2] = 0xFF;
    frame[3] = 0x7F;
    let mut parser = LayerParser::new(true, false, 0);
    assert_eq!(layers_of(&mut parser, &frame), vec![frame_at(&frame, 0)]);
}

#[test]
fn sync_in_the_middle_of_a_frame() {
    let mut stream = vec![0x11u8; 5];
    stream.extend_from_slice(&[0xFF, 0xFF, 0xFF, 0x7F]);
    let frame = [0x22u8; 16];
    stream.extend_from_slice(&frame);
    let mut parser = LayerParser::new(true, true, 0);
    let exp = vec![
        Err(Error {
            kind: ErrorKind::InvalidFrames,
            offset: 8,
        }),
        Ok(Layer::FrameSync { offset: 5 }),
        frame_at(&frame, 9),
    ];
    assert_eq!(layers_of(&mut parser, &stream), exp);
}

#[test]
fn padding_after_a_frame_byte_ff() {
    // The byte before the padding packet is 0xFF and belongs to the frame.
    let mut stream = vec![0x11u8, 0xFF, 0xFF, 0x7F];
    stream.extend_from_slice(&[0x11u8; 14]);
    let mut frame = [0x11u8; 16];
    frame[1] = 0xFF;
    let mut offsets = [0usize; 16];
    offsets[0] = 0;
    offsets[1] = 1;
    for i in 2..16 {
        offsets[i] = i + 2;
    }
    let mut parser = LayerParser::new(true, true, 0);
    let exp = vec![
        Ok(Layer::Padding { offset: 2 }),
        Ok(Layer::Frame { frame, offsets }),
    ];
    assert_eq!(layers_of(&mut parser, &stream), exp);
}

#[test]
fn four_ff_then_sync() {
    // The first of four bytes 0xFF is the last byte of the frame.
    let mut stream = vec![0x11u8; 15];
    stream.extend_from_slice(&[0xFF, 0xFF, 0xFF, 0xFF, 0x7F]);
    let mut frame = [0x11u8; 16];
    frame[15] = 0xFF;
    let mut parser = LayerParser::new(true, true, 0);
    let exp = vec![frame_at(&frame, 0), Ok(Layer::FrameSync { offset: 16 })];
    assert_eq!(layers_of(&mut parser, &stream), exp);
}

#[test]
fn no_sync_without_three_ff_in_a_row() {
    let stream = [0xFF, 0xFF, 0x00, 0xFF, 0x7F, 0x01, 0x02];
    let mut parser = LayerParser::new(false, true, 0);
    assert_eq!(layers_of(&mut parser, &stream), vec![]);
    assert!(!parser.syncd);
}

#[test]
fn layer_handler_error_stops_parsing() {
    let mut stream = vec![0xFF, 0xFF, 0xFF, 0x7F];
    stream.extend_from_slice(&[0u8; 32]);
    let mut parser = LayerParser::new(false, true, 0);
    let mut count = 0;
    let r = parser.parse(&stream, |l| {
        count += 1;
        match l {
            Ok(Layer::Frame { .. }) => Err(Error {
                kind: ErrorKind::Stop,
                offset: 0,
            }),
            _ => Ok(()),
        }
    });
    assert_eq!(
        r,
        Err(Error {
            kind: ErrorKind::Stop,
            offset: 0
        })
    );
    assert_eq!(count, 2);
}

#[test]
fn stream_round_trip() {
    let chunks: Vec<(StreamId, Vec<u8>)> = vec![
        (StreamId::Data(1), vec![1, 2, 3]),
        (StreamId::Null, vec![]),
        (StreamId::Data(0x7C), (0u8..40).collect()),
        (StreamId::Null, vec![0xFF, 0xFE]),
        (StreamId::Data(2), vec![0x7F]),
        (StreamId::Data(2), vec![0x80]),
        (StreamId::Trigger, vec![9; 7]),
    ];
    let mut out = Vec::new();
    let mut builder = StreamBuilder::new(&mut out);
    let mut exp = Vec::new();
    for (id, data) in chunks.iter() {
        builder.id_data(*id, data).unwrap();
        for d in data.iter() {
            exp.push((Some(*id), *d));
        }
    }
    let len = builder.finish().unwrap();
    assert_eq!(len, out.len());
    assert_eq!(len % 16, 0);
    let (events, _) = events_of(&out, None);
    assert!(events.iter().all(|e| e.0.is_ok()));
    let data = data_of(&events);
    assert_eq!(&data[..exp.len()], &exp[..]);
    assert!(data.len() - exp.len() < 15);
    assert!(data[exp.len()..]
        .iter()
        .all(|d| *d == (Some(StreamId::Null), 0)));
}

#[test]
fn padding_leaves_nothing_behind() {
    let mut out = Vec::new();
    let len = StreamBuilder::new(&mut out)
        .id_data(StreamId::Data(3), &[1, 2, 3])
        .unwrap()
        .pad_frame()
        .unwrap()
        .data(&[9])
        .unwrap()
        .finish()
        .unwrap();
    assert_eq!(len, 32);
    let exp = [
        7, 1, 2, 3, 1, 0, 0, 0, 0, 0, 0, 0, 0, 0, 0, 0x00, 7, 9, 1, 0, 0, 0, 0, 0, 0, 0, 0, 0, 0,
        0, 0, 0x00,
    ];
    assert_eq!(out, exp);
}

#[test]
fn stream_builder_writes_after_what_the_sink_holds() {
    let mut out = vec![0xAA, 0xBB];
    let len = StreamBuilder::new(&mut out)
        .id_data(StreamId::Data(1), &[0x11; 15])
        .unwrap()
        .finish()
        .unwrap();
    assert_eq!(len, 32);
    assert_eq!(out.len(), 34);
    assert_eq!(&out[..4], [0xAA, 0xBB, 0x03, 0x11]);
    assert_eq!(out[2 + 15], 0xFE);
}

#[test]
fn stream_builder_syncs_are_no_ops() {
    let mut out = Vec::new();
    let len = StreamBuilder::new(&mut out)
        .frame_sync()
        .unwrap()
        .halfword_sync()
        .unwrap()
        .finish()
        .unwrap();
    assert_eq!(len, 0);
    assert_eq!(out.len(), 0);
}

#[test]
fn frame_decoder_reports_a_frame_cut_short() {
    let mut stream = vec![0x10u8; 12];
    stream.extend_from_slice(&FSYNC);
    stream.extend_from_slice(&[0x20u8; 16]);
    let mut decoder = FrameDecoder::new(true, Some(1));
    let mut results: Vec<DataResult> = Vec::new();
    decoder
        .decode(&stream, |r| {
            results.push(r);
            Ok(())
        })
        .unwrap();
    assert_eq!(
        results[0],
        Err(frame_decoder::Error {
            offset: 0,
            reason: frame_decoder::ErrorReason::PartialFrame(12),
        })
    );
    assert_eq!(results.len(), 16);
    assert_eq!(
        results[1],
        Ok(frame_decoder::Data {
            id: Some(1),
            data: 0x20,
            offset: 16,
        })
    );
}

#[test]
fn frame_decoder_skips_padding() {
    let mut stream = vec![0x10u8; 4];
    stream.extend_from_slice(&[0xFF, 0x7F]);
    stream.extend_from_slice(&[0x10u8; 12]);
    let mut decoder = FrameDecoder::new(true, None);
    let mut offsets = Vec::new();
    decoder
        .decode(&stream, |r| {
            offsets.push(r.unwrap().offset);
            Ok(())
        })
        .unwrap();
    let exp: Vec<usize> = (0..4).chain(6..17).collect();
    assert_eq!(offsets, exp);
}

#[test]
fn frame_decoder_process_byte_takes_frame_bytes() {
    let mut decoder = FrameDecoder::new(false, Some(2));
    let mut results: Vec<DataResult> = Vec::new();
    for _ in 0..16 {
        decoder
            .process_byte(0xFF, |r| {
                results.push(r);
                Ok(())
            })
            .unwrap();
    }
    // Sixteen bytes 0xFF are a frame of reserved IDs and data, with an
    // invalid AUX byte.
    assert_eq!(
        results[0],
        Err(frame_decoder::Error {
            offset: 15,
            reason: frame_decoder::ErrorReason::InvalidAuxByte(0xFF),
        })
    );
    assert_eq!(
        results[1],
        Err(frame_decoder::Error {
            offset: 0,
            reason: frame_decoder::ErrorReason::InvalidStreamId(0x7F),
        })
    );
    assert_eq!(
        results[2],
        Ok(frame_decoder::Data {
            id: Some(2),
            data: 0xFF,
            offset: 1,
        })
    );
    assert_eq!(decoder.stream_id, Some(0x7F));
}

#[test]
fn frame_decoder_decode_frame() {
    let mut frame = [0u8; 16];
    frame[0] = 0x05;
    frame[1] = 0x42;
    let mut results: Vec<DataResult> = Vec::new();
    let r = frame_decoder::decode_frame(&frame, None, |r| {
        results.push(r);
        Ok(())
    });
    assert_eq!(r, Ok(Some(2)));
    assert_eq!(results.len(), 14);
    assert_eq!(
        results[0],
        Ok(frame_decoder::Data {
            id: Some(2),
            data: 0x42,
            offset: 1,
        })
    );
}
