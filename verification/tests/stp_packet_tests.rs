use stp_core::nibble::swap_nibbles;
use stp_core::stp;
use stp_core::stp::{OpCode, StpVersion, Timestamp, TimestampType};
use stp_core::stp_decoder::{Error, ErrorReason, Packet, PacketResult, StpDecoder};

const ASYNC: [u8; 22] = [
    0xf, 0xf, 0xf, 0xf, 0xf, 0xf, 0xf, 0xf, 0xf, 0xf, 0xf, 0xf, 0xf, 0xf, 0xf, 0xf, 0xf, 0xf, 0xf,
    0xf, 0xf, 0x0,
];

// STPv2.2, NATDELTA, BE
const VERSION: [u8; 6] = [0xf, 0x0, 0x0, 0xA, 0x0, 0x1];
const VERSION_V1: [u8; 4] = [0xf, 0x0, 0x0, 0x0];

fn decode(nibbles: &[u8]) -> Vec<PacketResult> {
    let mut results = Vec::new();
    let mut decoder = StpDecoder::new();
    decoder.decode_nibbles(nibbles, |r| results.push(r));
    results
}

fn stream(parts: &[&[u8]]) -> Vec<u8> {
    let mut s = Vec::new();
    for p in parts {
        s.extend_from_slice(p);
    }
    s
}

fn packet(packet: stp::Packet, start: usize, span: usize) -> PacketResult {
    Ok(Packet {
        packet,
        start,
        span,
    })
}

fn error(reason: ErrorReason, start: usize, span: usize) -> PacketResult {
    Err(Error {
        reason,
        start,
        span,
    })
}

fn version_packet() -> PacketResult {
    packet(
        stp::Packet::Version {
            version: StpVersion::STPv2_2,
            ts_type: TimestampType::STPv2NATDELTA,
            is_le: false,
        },
        22,
        6,
    )
}

#[test]
fn async_version_d4() {
    let nibbles = stream(&[&ASYNC, &[0xf, 0x0, 0x0, 0xA, 0x0, 0x1, 0xC, 0x1]]);
    let exp = vec![
        packet(stp::Packet::Async, 0, 22),
        version_packet(),
        packet(
            stp::Packet::Data {
                opcode: OpCode::D4,
                data: 0x1,
                timestamp: None,
            },
            28,
            2,
        ),
    ];
    assert_eq!(decode(&nibbles), exp);
}

#[test]
fn missing_version() {
    let nibbles = stream(&[&ASYNC, &[0x4, 0x1, 0x2], &ASYNC]);
    let exp = vec![
        packet(stp::Packet::Async, 0, 22),
        error(ErrorReason::MissingVersion, 22, 1),
        packet(stp::Packet::Async, 25, 22),
    ];
    assert_eq!(decode(&nibbles), exp);
}

#[test]
fn null_and_flag_need_no_version() {
    let nibbles = stream(&[&ASYNC, &[0x0, 0x0, 0xF, 0xE]]);
    let exp = vec![
        packet(stp::Packet::Async, 0, 22),
        packet(stp::Packet::Flag { timestamp: None }, 24, 2),
    ];
    assert_eq!(decode(&nibbles), exp);
}

#[test]
fn invalid_timestamp_type() {
    let nibbles = stream(&[&ASYNC, &[0xf, 0x0, 0x0, 0x5]]);
    let exp = vec![
        packet(stp::Packet::Async, 0, 22),
        error(ErrorReason::InvalidTimestampType { value: 5 }, 22, 4),
    ];
    assert_eq!(decode(&nibbles), exp);
}

#[test]
fn invalid_timestamp_size() {
    // The size nibble 0xF is held back until the nibble after it shows that
    // it does not start an ASYNC.
    let nibbles = stream(&[&ASYNC, &VERSION, &[0xF, 0x4, 0x1, 0x2, 0xF, 0x0]]);
    let exp = vec![
        packet(stp::Packet::Async, 0, 22),
        version_packet(),
        error(ErrorReason::InvalidTimestampSize, 28, 5),
    ];
    assert_eq!(decode(&nibbles), exp);
}

#[test]
fn invalid_three_and_four_nibble_opcodes() {
    let nibbles = stream(&[&ASYNC, &[0xF, 0x0, 0x1], &ASYNC, &[0xF, 0x0, 0xF, 0x2]]);
    let exp = vec![
        packet(stp::Packet::Async, 0, 22),
        error(ErrorReason::InvalidOpCode { value: 0xF01 }, 22, 3),
        packet(stp::Packet::Async, 25, 22),
        error(ErrorReason::InvalidOpCode { value: 0xF0F2 }, 47, 4),
    ];
    assert_eq!(decode(&nibbles), exp);
}

#[test]
fn truncated_data_packet_names_its_opcode() {
    let nibbles = stream(&[&ASYNC, &VERSION, &[0x6, 0x1, 0x2, 0x3], &ASYNC]);
    let exp = vec![
        packet(stp::Packet::Async, 0, 22),
        version_packet(),
        error(
            ErrorReason::TruncatedPacket {
                opcode: Some(OpCode::D32),
            },
            28,
            4,
        ),
        packet(stp::Packet::Async, 32, 22),
    ];
    assert_eq!(decode(&nibbles), exp);
}

#[test]
fn async_forgets_version() {
    let nibbles = stream(&[&ASYNC, &VERSION, &ASYNC, &[0xC, 0x1]]);
    let exp = vec![
        packet(stp::Packet::Async, 0, 22),
        version_packet(),
        packet(stp::Packet::Async, 28, 22),
        error(ErrorReason::MissingVersion, 50, 1),
    ];
    assert_eq!(decode(&nibbles), exp);
}

#[test]
fn frequency_packets() {
    let nibbles = stream(&[
        &ASYNC,
        &VERSION,
        &[0xF, 0x0, 0x8, 0x1, 0x2, 0x3, 0x4, 0x5, 0x6, 0x7, 0x8],
        &[0xF, 0x0, 0x9, 0x1, 0x2, 0x3, 0x4, 0x5, 0x6, 0x7, 0x8, 0x1, 0x9],
        &[0xF, 0x0, 0xF, 0x0, 0x1, 0x2, 0x3, 0x4, 0x5, 0x6, 0x7, 0x8, 0x9, 0xA],
        &[0xF, 0x0, 0xF, 0x1, 0x1, 0x2, 0x3, 0x4, 0x5, 0x6, 0x7, 0x8, 0x9, 0xA, 0xD],
        &[0x1, 0x2, 0x3, 0x4, 0x5, 0x6, 0x7, 0x8, 0x9, 0xA, 0xB, 0xC, 0xD, 0xE],
    ]);
    let exp = vec![
        packet(stp::Packet::Async, 0, 22),
        version_packet(),
        packet(
            stp::Packet::Frequency {
                opcode: OpCode::FREQ,
                frequency: 0x1234_5678,
                timestamp: None,
            },
            28,
            11,
        ),
        packet(
            stp::Packet::Frequency {
                opcode: OpCode::FREQ_TS,
                frequency: 0x1234_5678,
                timestamp: Some(Timestamp::STPv2NATDELTA {
                    length: 1,
                    value: 0x9,
                }),
            },
            39,
            13,
        ),
        packet(
            stp::Packet::Frequency {
                opcode: OpCode::FREQ_40,
                frequency: 0x12_3456_789A,
                timestamp: None,
            },
            52,
            14,
        ),
        packet(
            stp::Packet::Frequency {
                opcode: OpCode::FREQ_40_TS,
                frequency: 0x12_3456_789A,
                timestamp: Some(Timestamp::STPv2NATDELTA {
                    length: 14,
                    value: 0x1234_5678_9ABC_DE,
                }),
            },
            66,
            29,
        ),
    ];
    assert_eq!(decode(&nibbles), exp);
}

#[test]
fn legacy_timestamp_has_two_nibbles() {
    let nibbles = stream(&[&ASYNC, &VERSION_V1, &[0x8, 0x1, 0x2, 0xA, 0xB]]);
    let exp = vec![
        packet(stp::Packet::Async, 0, 22),
        packet(
            stp::Packet::Version {
                version: StpVersion::STPv1,
                ts_type: TimestampType::STPv1LEGACY,
                is_le: false,
            },
            22,
            4,
        ),
        packet(
            stp::Packet::Data {
                opcode: OpCode::D8MTS,
                data: 0x12,
                timestamp: Some(Timestamp::STPv1 { value: 0xAB }),
            },
            26,
            5,
        ),
    ];
    assert_eq!(decode(&nibbles), exp);
}

#[test]
fn timestamp_of_size_zero() {
    let nibbles = stream(&[&ASYNC, &VERSION, &[0xE, 0x0]]);
    let exp = vec![
        packet(stp::Packet::Async, 0, 22),
        version_packet(),
        packet(
            stp::Packet::Flag {
                timestamp: Some(Timestamp::STPv2NATDELTA {
                    length: 0,
                    value: 0,
                }),
            },
            28,
            2,
        ),
    ];
    assert_eq!(decode(&nibbles), exp);
}

#[test]
fn timestamp_size_codes() {
    // 0xE stands for sixteen nibbles.
    let nibbles = stream(&[
        &ASYNC,
        &VERSION,
        &[0xE, 0xE],
        &[
            0x1, 0x2, 0x3, 0x4, 0x5, 0x6, 0x7, 0x8, 0x9, 0xA, 0xB, 0xC, 0xD, 0xE, 0x0, 0x1,
        ],
    ]);
    let results = decode(&nibbles);
    assert_eq!(
        results[2],
        packet(
            stp::Packet::Flag {
                timestamp: Some(Timestamp::STPv2NATDELTA {
                    length: 16,
                    value: 0x1234_5678_9ABC_DE01,
                }),
            },
            28,
            18,
        )
    );
}

#[test]
fn version_without_nibble_order_is_big_endian() {
    // A little-endian VERSION, then one that names no nibble order.
    let nibbles = stream(&[
        &ASYNC,
        &[0xf, 0x0, 0x0, 0xC, 0x8, 0x1],
        &[0x5, 0x1, 0x2, 0x3, 0x4],
        &[0xf, 0x0, 0x0, 0x3],
        &[0x5, 0x1, 0x2, 0x3, 0x4],
    ]);
    let results = decode(&nibbles);
    assert_eq!(results.len(), 5);
    assert_eq!(
        results[2],
        packet(
            stp::Packet::Data {
                opcode: OpCode::D16,
                data: 0x4321,
                timestamp: None,
            },
            28,
            5,
        )
    );
    assert_eq!(
        results[4],
        packet(
            stp::Packet::Data {
                opcode: OpCode::D16,
                data: 0x1234,
                timestamp: None,
            },
            37,
            5,
        )
    );
}

#[test]
fn f_nibbles_in_payload() {
    // Nibbles 0xF are held back and handed on once another nibble follows.
    let nibbles = stream(&[&ASYNC, &VERSION, &[0x5, 0xF, 0xF, 0xF, 0x1]]);
    let results = decode(&nibbles);
    assert_eq!(
        results[2],
        packet(
            stp::Packet::Data {
                opcode: OpCode::D16,
                data: 0xFFF1,
                timestamp: None,
            },
            28,
            5,
        )
    );
}

#[test]
fn resynchronizes_whatever_came_before() {
    let tail = stream(&[&ASYNC, &VERSION, &[0x4, 0xA, 0xB]]);
    let garbage: [&[u8]; 4] = [
        &[],
        &[0x1, 0x2, 0x3],
        &[0xF, 0xF, 0xF, 0xF, 0xF],
        &[0x7, 0x1, 0x2, 0xF, 0x0, 0x0, 0xC, 0x8],
    ];
    for g in garbage.iter() {
        let mut first = StpDecoder::new();
        first.decode_nibbles(&ASYNC, |_| ());
        first.decode_nibbles(&VERSION, |_| ());
        first.decode_nibbles(g, |_| ());
        let mut results = Vec::new();
        first.decode_nibbles(&tail, |r| results.push(r));
        let n = results.len();
        assert!(n >= 3);
        let start = 28 + g.len();
        assert_eq!(results[n - 3], packet(stp::Packet::Async, start, 22));
        assert_eq!(
            results[n - 2],
            packet(
                stp::Packet::Version {
                    version: StpVersion::STPv2_2,
                    ts_type: TimestampType::STPv2NATDELTA,
                    is_le: false,
                },
                start + 22,
                6,
            )
        );
        assert_eq!(
            results[n - 1],
            packet(
                stp::Packet::Data {
                    opcode: OpCode::D8,
                    data: 0xAB,
                    timestamp: None,
                },
                start + 28,
                3,
            )
        );
    }
}

#[test]
fn advance_returns_what_a_nibble_completes() {
    let mut decoder = StpDecoder::new();
    for n in ASYNC.iter().take(21) {
        assert_eq!(decoder.advance(*n), vec![]);
    }
    assert_eq!(decoder.advance(0x0), vec![packet(stp::Packet::Async, 0, 22)]);
    assert_eq!(decoder.advance(0xF), vec![]);
    assert_eq!(
        decoder.advance(0xE),
        vec![packet(stp::Packet::Flag { timestamp: None }, 22, 2)]
    );
}

#[test]
fn decode_nibble_hands_over_each_event() {
    let mut decoder = StpDecoder::new();
    let mut results = Vec::new();
    for n in stream(&[&ASYNC, &[0xF, 0x0], &ASYNC]) {
        decoder.decode_nibble(n, |r| results.push(r));
    }
    let exp = vec![
        packet(stp::Packet::Async, 0, 22),
        error(ErrorReason::TruncatedPacket { opcode: None }, 22, 2),
        packet(stp::Packet::Async, 24, 22),
    ];
    assert_eq!(results, exp);
}

#[test]
fn bytes_hold_the_low_nibble_first() {
    // 0x1C is the nibble 0xC (D4) followed by the nibble 0x1.
    let mut bytes = vec![0xFF; 10];
    bytes.extend_from_slice(&[0x0F, 0x0F, 0xA0, 0x10, 0x1C]);
    let mut results = Vec::new();
    let mut decoder = StpDecoder::new();
    decoder.decode_bytes(&bytes, |r| results.push(r));
    let exp = vec![
        packet(stp::Packet::Async, 0, 22),
        version_packet(),
        packet(
            stp::Packet::Data {
                opcode: OpCode::D4,
                data: 0x1,
                timestamp: None,
            },
            28,
            2,
        ),
    ];
    assert_eq!(results, exp);
}

#[test]
fn swapping_nibbles_twice() {
    let values: [u64; 4] = [
        0,
        0x0123_4567_89AB_CDEF,
        0xFFFF_FFFF_FFFF_FFFF,
        0x8000_0000_0000_0001,
    ];
    for v in values.iter() {
        for n in 1..=16usize {
            let mask = if n == 16 {
                u64::MAX
            } else {
                (1u64 << (4 * n)) - 1
            };
            assert_eq!(swap_nibbles(swap_nibbles(*v, n), n), *v & mask);
        }
    }
}

#[test]
fn swapping_nibbles_clears_what_is_above() {
    assert_eq!(swap_nibbles(0xABCD_EF12, 2), 0x21);
    assert_eq!(swap_nibbles(0xF, 1), 0xF);
    assert_eq!(swap_nibbles(0x10, 1), 0x0);
}
