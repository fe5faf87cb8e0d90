use stp_core::frame_decoder::{DataResult, FrameDecoder, FSYNC};
use stp_core::stp_decoder::{PacketResult, StpDecoder};
use stp_core::twp::frame_parser::{parse_frames, StreamId};
use stp_core::twp::layer_parser::{LayerParser, LayerResult};
use stp_core::twp::stream_builder::StreamBuilder;

// A small generator of numbers, the same on every run.
struct Numbers(u64);

impl Numbers {
    fn next(&mut self) -> u64 {
        self.0 = self
            .0
            .wrapping_mul(6364136223846793005)
            .wrapping_add(1442695040888963407);
        self.0 >> 33
    }

    fn below(&mut self, n: u64) -> u64 {
        self.next() % n
    }
}

fn decode_in_pieces(stream: &[u8], size: usize) -> Vec<DataResult> {
    let mut decoder = FrameDecoder::new(false, None);
    let mut results = Vec::new();
    for piece in stream.chunks(size) {
        decoder
            .decode(piece, |r| {
                results.push(r);
                Ok(())
            })
            .unwrap();
    }
    decoder
        .finish(|r| {
            results.push(r);
            Ok(())
        })
        .unwrap();
    results
}

fn layers_in_pieces(stream: &[u8], size: usize) -> Vec<LayerResult> {
    let mut parser = LayerParser::new(false, true, 0);
    let mut results = Vec::new();
    for piece in stream.chunks(size) {
        parser
            .parse(piece, |r| {
                results.push(r);
                Ok(())
            })
            .unwrap();
    }
    parser
        .finish(|r| {
            results.push(r);
            Ok(())
        })
        .unwrap();
    results
}

fn trace() -> Vec<u8> {
    let mut numbers = Numbers(7);
    let mut stream = vec![0x12, 0x34, 0xFF];
    for _ in 0..6 {
        stream.extend_from_slice(&FSYNC);
        for _ in 0..numbers.below(3) {
            stream.extend_from_slice(&[0xFF, 0x7F]);
        }
        let mut frames = Vec::new();
        let mut builder = StreamBuilder::new(&mut frames);
        for _ in 0..4 {
            let id = 1 + numbers.below(0x30) as u8;
            let len = numbers.below(20) as usize;
            let data: Vec<u8> = (0..len).map(|_| numbers.below(0xF0) as u8).collect();
            builder.id_data(StreamId::from(id), &data).unwrap();
        }
        builder.finish().unwrap();
        stream.extend_from_slice(&frames);
    }
    stream
}

#[test]
fn frame_decoder_takes_pieces_of_any_size() {
    let stream = trace();
    let whole = decode_in_pieces(&stream, stream.len());
    assert!(whole.len() > 100);
    for size in 1..40 {
        assert_eq!(decode_in_pieces(&stream, size), whole);
    }
}

#[test]
fn layer_parser_takes_pieces_of_any_size() {
    let stream = trace();
    let whole = layers_in_pieces(&stream, stream.len());
    assert!(whole.len() > 10);
    for size in 1..40 {
        assert_eq!(layers_in_pieces(&stream, size), whole);
    }
}

#[test]
fn stp_decoder_takes_pieces_of_any_size() {
    let mut numbers = Numbers(11);
    let mut nibbles = Vec::new();
    for _ in 0..5 {
        for _ in 0..numbers.below(30) {
            nibbles.push(numbers.below(16) as u8);
        }
        nibbles.extend_from_slice(&[0xF; 21]);
        nibbles.push(0);
        nibbles.extend_from_slice(&[0xF, 0x0, 0x0, 0xA, 0x0, 0x1]);
        for _ in 0..200 {
            nibbles.push(numbers.below(16) as u8);
        }
    }
    let mut whole: Vec<PacketResult> = Vec::new();
    StpDecoder::new().decode_nibbles(&nibbles, |r| whole.push(r));
    assert!(whole.len() > 20);
    for size in 1..30 {
        let mut results: Vec<PacketResult> = Vec::new();
        let mut decoder = StpDecoder::new();
        for piece in nibbles.chunks(size) {
            decoder.decode_nibbles(piece, |r| results.push(r));
        }
        assert_eq!(results, whole);
    }
    // One nibble at a time, through `advance`.
    let mut results: Vec<PacketResult> = Vec::new();
    let mut decoder = StpDecoder::new();
    for n in nibbles.iter() {
        results.extend(decoder.advance(*n));
    }
    assert_eq!(results, whole);
    // Packed into bytes, the low nibble first.
    if nibbles.len() % 2 == 1 {
        nibbles.push(0);
        let mut again: Vec<PacketResult> = Vec::new();
        StpDecoder::new().decode_nibbles(&nibbles, |r| again.push(r));
        whole = again;
    }
    let bytes: Vec<u8> = nibbles.chunks(2).map(|p| p[0] | p[1] << 4).collect();
    let mut results: Vec<PacketResult> = Vec::new();
    StpDecoder::new().decode_bytes(&bytes, |r| results.push(r));
    assert_eq!(results, whole);
}

#[test]
fn streams_come_back_as_they_went_in() {
    let mut numbers = Numbers(3);
    for _ in 0..200 {
        let mut out = Vec::new();
        let mut builder = StreamBuilder::new(&mut out);
        let mut exp = Vec::new();
        for _ in 0..numbers.below(8) {
            let id = numbers.below(0x7D) as u8;
            let len = numbers.below(40) as usize;
            let data: Vec<u8> = (0..len).map(|_| numbers.below(256) as u8).collect();
            builder.id_data(StreamId::from(id), &data).unwrap();
            for d in data.iter() {
                exp.push((Some(StreamId::from(id)), *d));
            }
        }
        let len = builder.finish().unwrap();
        assert_eq!(len, out.len());
        assert_eq!(len % 16, 0);
        let mut data = Vec::new();
        let r = parse_frames(&out, None, |r, _| {
            let byte = r.unwrap();
            data.push((byte.id, byte.data));
            Ok(())
        });
        assert!(r.is_ok());
        assert_eq!(&data[..exp.len()], &exp[..]);
        assert!(data.len() - exp.len() < 15);
        assert!(data[exp.len()..]
            .iter()
            .all(|d| *d == (Some(StreamId::Null), 0)));
    }
}
