//! Nibble-level decoder for MIPI System Trace Protocol (STP) streams.
//!
//! The decoder is a state machine that is fed one nibble at a time.  Its
//! behaviour is defined by the spec functions on [`StpDecoder`]:
//! [`StpDecoder::step`] says how a single nibble changes the state and which
//! packets or errors it completes, and [`StpDecoder::run`] folds that over a
//! sequence of nibbles.

use crate::nibble::{swap_nibbles, swap_nibbles_spec};
use crate::stp;
use crate::stp::{OpCode, PayloadKind, StpVersion, Timestamp, TimestampType};
use vstd::prelude::*;

verus! {

/// A decoded packet together with its position in the nibble stream.
#[derive(Debug, PartialEq, Eq, Copy, Clone)]
pub struct Packet {
    /// The packet itself.
    pub packet: stp::Packet,
    /// Offset, in nibbles, of the packet's first nibble.
    pub start: usize,
    /// Size of the packet in nibbles.
    pub span: usize,
}

/// Why a stretch of the nibble stream is not a packet.
#[allow(inconsistent_fields)]
#[derive(Debug, PartialEq, Eq, Copy, Clone)]
pub enum ErrorReason {
    /// Twenty-one `0xF` nibbles were followed by something other than `0x0`.
    InvalidAsync { bad_nibble: u8 },
    /// An ASYNC arrived in the middle of a packet.
    TruncatedPacket { opcode: Option<OpCode> },
    /// A data packet arrived before any VERSION packet.
    MissingVersion,
    InvalidOpCode { value: u16 },
    InvalidTimestampType { value: u8 },
    InvalidTimestampSize,
    InvalidVersion { value: u8 },
}

/// A decoding error together with the nibbles it covers.
#[derive(Debug, PartialEq, Eq, Copy, Clone)]
pub struct Error {
    pub reason: ErrorReason,
    pub start: usize,
    pub span: usize,
}

/// What the decoder reports: a packet or an error.
pub type PacketResult = Result<Packet, Error>;

/// Number of consecutive `0xF` nibbles that open an ASYNC packet.
pub const ASYNC_F_COUNT: u8 = 21;

/// What a nibble means while an opcode is being read.
pub enum OpcodeStep {
    /// The opcode is not complete yet.
    Continue,
    /// A NULL packet.
    Null,
    /// A FLAG packet without timestamp.
    Flag,
    /// A VERSION opcode; the version payload follows.
    Version,
    /// An opcode followed by `data_sz` payload nibbles and, if
    /// `has_timestamp`, a timestamp.
    Data { opcode: OpCode, data_sz: usize, has_timestamp: bool },
    /// Not an opcode that the decoder knows.
    Invalid { value: u16 },
}

/// The opcode table: what nibble `nibble` means as the `span`-th nibble of
/// an opcode.
pub open spec fn opcode_step(span: usize, nibble: u8) -> OpcodeStep {
    if span == 1 {
        match nibble {
            0x0 => OpcodeStep::Null,
            0x1 => OpcodeStep::Data { opcode: OpCode::M8, data_sz: 2, has_timestamp: false },
            0x2 => OpcodeStep::Data { opcode: OpCode::MERR, data_sz: 2, has_timestamp: false },
            0x3 => OpcodeStep::Data { opcode: OpCode::C8, data_sz: 2, has_timestamp: false },
            0x4 => OpcodeStep::Data { opcode: OpCode::D8, data_sz: 2, has_timestamp: false },
            0x5 => OpcodeStep::Data { opcode: OpCode::D16, data_sz: 4, has_timestamp: false },
            0x6 => OpcodeStep::Data { opcode: OpCode::D32, data_sz: 8, has_timestamp: false },
            0x7 => OpcodeStep::Data { opcode: OpCode::D64, data_sz: 16, has_timestamp: false },
            0x8 => OpcodeStep::Data { opcode: OpCode::D8MTS, data_sz: 2, has_timestamp: true },
            0x9 => OpcodeStep::Data { opcode: OpCode::D16MTS, data_sz: 4, has_timestamp: true },
            0xA => OpcodeStep::Data { opcode: OpCode::D32MTS, data_sz: 8, has_timestamp: true },
            0xB => OpcodeStep::Data { opcode: OpCode::D64MTS, data_sz: 16, has_timestamp: true },
            0xC => OpcodeStep::Data { opcode: OpCode::D4, data_sz: 1, has_timestamp: false },
            0xD => OpcodeStep::Data { opcode: OpCode::D4MTS, data_sz: 1, has_timestamp: true },
            0xE => OpcodeStep::Data { opcode: OpCode::FLAG_TS, data_sz: 0, has_timestamp: true },
            _ => OpcodeStep::Continue,
        }
    } else if span == 2 {
        match nibble {
            0x0 => OpcodeStep::Continue,
            0x1 => OpcodeStep::Data { opcode: OpCode::M16, data_sz: 4, has_timestamp: false },
            0x2 => OpcodeStep::Data { opcode: OpCode::GERR, data_sz: 2, has_timestamp: false },
            0x3 => OpcodeStep::Data { opcode: OpCode::C16, data_sz: 4, has_timestamp: false },
            0x4 => OpcodeStep::Data { opcode: OpCode::D8TS, data_sz: 2, has_timestamp: true },
            0x5 => OpcodeStep::Data { opcode: OpCode::D16TS, data_sz: 4, has_timestamp: true },
            0x6 => OpcodeStep::Data { opcode: OpCode::D32TS, data_sz: 8, has_timestamp: true },
            0x7 => OpcodeStep::Data { opcode: OpCode::D64TS, data_sz: 16, has_timestamp: true },
            0x8 => OpcodeStep::Data { opcode: OpCode::D8M, data_sz: 2, has_timestamp: false },
            0x9 => OpcodeStep::Data { opcode: OpCode::D16M, data_sz: 4, has_timestamp: false },
            0xA => OpcodeStep::Data { opcode: OpCode::D32M, data_sz: 8, has_timestamp: false },
            0xB => OpcodeStep::Data { opcode: OpCode::D64M, data_sz: 16, has_timestamp: false },
            0xC => OpcodeStep::Data { opcode: OpCode::D4TS, data_sz: 1, has_timestamp: true },
            0xD => OpcodeStep::Data { opcode: OpCode::D4M, data_sz: 1, has_timestamp: false },
            0xE => OpcodeStep::Flag,
            _ => OpcodeStep::Invalid { value: 0xFF },
        }
    } else if span == 3 {
        match nibble {
            0x0 => OpcodeStep::Version,
            0x8 => OpcodeStep::Data { opcode: OpCode::FREQ, data_sz: 8, has_timestamp: false },
            0x9 => OpcodeStep::Data { opcode: OpCode::FREQ_TS, data_sz: 8, has_timestamp: true },
            0xF => OpcodeStep::Continue,
            _ => OpcodeStep::Invalid { value: 0xF00 | (nibble as u16) },
        }
    } else {
        match nibble {
            0x0 => OpcodeStep::Data { opcode: OpCode::FREQ_40, data_sz: 10, has_timestamp: false },
            0x1 => OpcodeStep::Data {
                opcode: OpCode::FREQ_40_TS,
                data_sz: 10,
                has_timestamp: true,
            },
            _ => OpcodeStep::Invalid { value: 0xF0F0 | (nibble as u16) },
        }
    }
}

/// Looks `nibble` up in the opcode table, as the `span`-th nibble of an
/// opcode.
pub fn decode_opcode_nibble(span: usize, nibble: u8) -> (r: OpcodeStep)
    requires
        1 <= span <= 4,
        nibble < 16,
    ensures
        r == opcode_step(span, nibble),
{
    if span == 1 {
        match nibble {
            0x0 => OpcodeStep::Null,
            0x1 => OpcodeStep::Data { opcode: OpCode::M8, data_sz: 2, has_timestamp: false },
            0x2 => OpcodeStep::Data { opcode: OpCode::MERR, data_sz: 2, has_timestamp: false },
            0x3 => OpcodeStep::Data { opcode: OpCode::C8, data_sz: 2, has_timestamp: false },
            0x4 => OpcodeStep::Data { opcode: OpCode::D8, data_sz: 2, has_timestamp: false },
            0x5 => OpcodeStep::Data { opcode: OpCode::D16, data_sz: 4, has_timestamp: false },
            0x6 => OpcodeStep::Data { opcode: OpCode::D32, data_sz: 8, has_timestamp: false },
            0x7 => OpcodeStep::Data { opcode: OpCode::D64, data_sz: 16, has_timestamp: false },
            0x8 => OpcodeStep::Data { opcode: OpCode::D8MTS, data_sz: 2, has_timestamp: true },
            0x9 => OpcodeStep::Data { opcode: OpCode::D16MTS, data_sz: 4, has_timestamp: true },
            0xA => OpcodeStep::Data { opcode: OpCode::D32MTS, data_sz: 8, has_timestamp: true },
            0xB => OpcodeStep::Data { opcode: OpCode::D64MTS, data_sz: 16, has_timestamp: true },
            0xC => OpcodeStep::Data { opcode: OpCode::D4, data_sz: 1, has_timestamp: false },
            0xD => OpcodeStep::Data { opcode: OpCode::D4MTS, data_sz: 1, has_timestamp: true },
            0xE => OpcodeStep::Data { opcode: OpCode::FLAG_TS, data_sz: 0, has_timestamp: true },
            _ => OpcodeStep::Continue,
        }
    } else if span == 2 {
        match nibble {
            0x0 => OpcodeStep::Continue,
            0x1 => OpcodeStep::Data { opcode: OpCode::M16, data_sz: 4, has_timestamp: false },
            0x2 => OpcodeStep::Data { opcode: OpCode::GERR, data_sz: 2, has_timestamp: false },
            0x3 => OpcodeStep::Data { opcode: OpCode::C16, data_sz: 4, has_timestamp: false },
            0x4 => OpcodeStep::Data { opcode: OpCode::D8TS, data_sz: 2, has_timestamp: true },
            0x5 => OpcodeStep::Data { opcode: OpCode::D16TS, data_sz: 4, has_timestamp: true },
            0x6 => OpcodeStep::Data { opcode: OpCode::D32TS, data_sz: 8, has_timestamp: true },
            0x7 => OpcodeStep::Data { opcode: OpCode::D64TS, data_sz: 16, has_timestamp: true },
            0x8 => OpcodeStep::Data { opcode: OpCode::D8M, data_sz: 2, has_timestamp: false },
            0x9 => OpcodeStep::Data { opcode: OpCode::D16M, data_sz: 4, has_timestamp: false },
            0xA => OpcodeStep::Data { opcode: OpCode::D32M, data_sz: 8, has_timestamp: false },
            0xB => OpcodeStep::Data { opcode: OpCode::D64M, data_sz: 16, has_timestamp: false },
            0xC => OpcodeStep::Data { opcode: OpCode::D4TS, data_sz: 1, has_timestamp: true },
            0xD => OpcodeStep::Data { opcode: OpCode::D4M, data_sz: 1, has_timestamp: false },
            0xE => OpcodeStep::Flag,
            _ => OpcodeStep::Invalid { value: 0xFF },
        }
    } else if span == 3 {
        match nibble {
            0x0 => OpcodeStep::Version,
            0x8 => OpcodeStep::Data { opcode: OpCode::FREQ, data_sz: 8, has_timestamp: false },
            0x9 => OpcodeStep::Data { opcode: OpCode::FREQ_TS, data_sz: 8, has_timestamp: true },
            0xF => OpcodeStep::Continue,
            _ => OpcodeStep::Invalid { value: 0xF00 | (nibble as u16) },
        }
    } else {
        match nibble {
            0x0 => OpcodeStep::Data { opcode: OpCode::FREQ_40, data_sz: 10, has_timestamp: false },
            0x1 => OpcodeStep::Data {
                opcode: OpCode::FREQ_40_TS,
                data_sz: 10,
                has_timestamp: true,
            },
            _ => OpcodeStep::Invalid { value: 0xF0F0 | (nibble as u16) },
        }
    }
}

/// The nibbles read so far while an opcode of more than `span - 1` nibbles
/// is being read, followed by `nibble`.
pub open spec fn opcode_candidate(span: usize, nibble: u8) -> u16 {
    if span == 1 {
        nibble as u16
    } else if span == 2 {
        0xF0 | (nibble as u16)
    } else if span == 3 {
        0xF00 | (nibble as u16)
    } else {
        0xF0F0 | (nibble as u16)
    }
}

/// The opcodes that the decoder knows: those that carry data, and NULL,
/// FLAG and VERSION.
pub open spec fn known_opcode(opcode: OpCode) -> bool {
    opcode.payload_kind() is Some || opcode == OpCode::NULL || opcode == OpCode::FLAG || opcode
        == OpCode::VERSION
}

/// The opcode table agrees with the opcodes' encodings: an opcode is
/// recognized exactly when the nibbles read spell its code, with the payload
/// size and timestamp flag that belong to it; reading goes on while the
/// nibbles read are the start of a longer code; anything else is reported as
/// invalid, with the nibbles read, and is the code of no opcode that the
/// decoder knows.
pub proof fn lemma_opcode_table(span: usize, nibble: u8)
    requires
        1 <= span <= 4,
        nibble < 16,
    ensures
        match opcode_step(span, nibble) {
            OpcodeStep::Continue => {
                let read = opcode_candidate(span, nibble);
                read == 0xF || read == 0xF0 || read == 0xF0F
            },
            OpcodeStep::Null => OpCode::NULL.code() == opcode_candidate(span, nibble)
                && OpCode::NULL.code_len() == span,
            OpcodeStep::Flag => OpCode::FLAG.code() == opcode_candidate(span, nibble)
                && OpCode::FLAG.code_len() == span,
            OpcodeStep::Version => OpCode::VERSION.code() == opcode_candidate(span, nibble)
                && OpCode::VERSION.code_len() == span,
            OpcodeStep::Data { opcode, data_sz, has_timestamp } => {
                &&& opcode.code() == opcode_candidate(span, nibble)
                &&& opcode.code_len() == span
                &&& opcode.payload_kind() is Some
                &&& data_sz == opcode.payload_nibbles()
                &&& has_timestamp == opcode.has_timestamp()
            },
            OpcodeStep::Invalid { value } => {
                &&& value == opcode_candidate(span, nibble)
                &&& forall|opcode: OpCode|
                    known_opcode(opcode) ==> !(#[trigger] opcode.code() == value
                        && opcode.code_len() == span)
            },
        },
{
    assert(0xF0u16 | 0x0 == 0xF0 && 0xF0u16 | 0x1 == 0xF1 && 0xF0u16 | 0x2 == 0xF2 && 0xF0u16
        | 0x3 == 0xF3 && 0xF0u16 | 0x4 == 0xF4 && 0xF0u16 | 0x5 == 0xF5 && 0xF0u16 | 0x6 == 0xF6
        && 0xF0u16 | 0x7 == 0xF7 && 0xF0u16 | 0x8 == 0xF8 && 0xF0u16 | 0x9 == 0xF9 && 0xF0u16
        | 0xA == 0xFA && 0xF0u16 | 0xB == 0xFB && 0xF0u16 | 0xC == 0xFC && 0xF0u16 | 0xD == 0xFD
        && 0xF0u16 | 0xE == 0xFE && 0xF0u16 | 0xF == 0xFF) by (bit_vector);
    let n = nibble as u16;
    assert(n < 16 ==> 0xF00u16 | n == 0xF00 + n && 0xF0F0u16 | n == 0xF0F0 + n) by (bit_vector);
}

/// The timestamp size, in nibbles, that a size nibble stands for.
pub open spec fn timestamp_size(nibble: u8) -> Option<u8> {
    if nibble <= 0xC {
        Some(nibble)
    } else if nibble == 0xD {
        Some(14u8)
    } else if nibble == 0xE {
        Some(16u8)
    } else {
        None
    }
}

/// Decodes the size nibble of a timestamp.
pub fn decode_timestamp_sz(nibble: u8) -> (r: Option<u8>)
    ensures
        r == timestamp_size(nibble),
{
    if nibble <= 0xC {
        Some(nibble)
    } else if nibble == 0xD {
        Some(14)
    } else if nibble == 0xE {
        Some(16)
    } else {
        None
    }
}

/// Collects the nibbles of one timestamp.
#[derive(Debug, PartialEq, Eq, Copy, Clone)]
pub struct TimestampDecoder {
    /// Timestamp nibbles read so far, most significant first.
    pub ts: u64,
    /// Span of the packet at which the timestamp ends; 0 until the first
    /// timestamp nibble has been seen.
    pub ts_span: usize,
    /// Size of the timestamp in nibbles.
    pub ts_sz: u8,
    pub ts_type: TimestampType,
    pub is_le: bool,
}

impl TimestampDecoder {
    /// A decoder that has seen nothing of the timestamp yet.
    pub open spec fn new_spec(ts_type: TimestampType, is_le: bool) -> TimestampDecoder {
        TimestampDecoder { ts: 0, ts_span: 0, ts_sz: 0, ts_type, is_le }
    }

    /// The decoder is consistent after `span` nibbles of the packet.
    pub open spec fn wf(self, span: usize) -> bool {
        &&& self.ts_sz <= 16
        &&& {
            ||| self.ts_span == 0 && self.ts == 0 && self.ts_sz == 0
            ||| span < self.ts_span <= span + 16 && 1 <= self.ts_sz
        }
    }

    /// The timestamp made of the nibbles read.
    pub open spec fn finish_spec(self) -> Timestamp {
        let value = if self.ts_sz > 1 && self.is_le {
            swap_nibbles_spec(self.ts, self.ts_sz as nat)
        } else {
            self.ts
        };
        match self.ts_type {
            TimestampType::STPv1LEGACY => Timestamp::STPv1 { value: value as u8 },
            TimestampType::STPv2NATDELTA => Timestamp::STPv2NATDELTA {
                length: self.ts_sz,
                value,
            },
            TimestampType::STPv2NAT => Timestamp::STPv2NAT { length: self.ts_sz, value },
            TimestampType::STPv2GRAY => Timestamp::STPv2GRAY { length: self.ts_sz, value },
        }
    }

    /// The decoder after `nibble`, the `span`-th nibble of the packet, and
    /// the timestamp or error that the nibble completes.
    pub open spec fn decode_spec(self, nibble: u8, span: usize) -> (
        TimestampDecoder,
        Option<Result<Timestamp, ErrorReason>>,
    ) {
        if span <= self.ts_span {
            let t = TimestampDecoder { ts: self.ts << 4 | nibble as u64, ..self };
            (
                t,
                if span == self.ts_span {
                    Some(Ok(t.finish_spec()))
                } else {
                    None
                },
            )
        } else if self.ts_type == TimestampType::STPv1LEGACY {
            (
                TimestampDecoder {
                    ts: self.ts << 4 | nibble as u64,
                    ts_sz: 2,
                    ts_span: (span + 1) as usize,
                    ..self
                },
                None,
            )
        } else {
            match timestamp_size(nibble) {
                None => (
                    TimestampDecoder { ts_span: span, ..self },
                    Some(Err(ErrorReason::InvalidTimestampSize)),
                ),
                Some(sz) => if sz == 0 {
                    let t = TimestampDecoder { ts_span: span, ..self };
                    (t, Some(Ok(t.finish_spec())))
                } else {
                    (
                        TimestampDecoder { ts_sz: sz, ts_span: (span + sz) as usize, ..self },
                        None,
                    )
                },
            }
        }
    }

    /// A decoder for a timestamp of type `ts_type`, whose nibbles come in
    /// little-endian order if `is_le`.
    pub fn new(ts_type: TimestampType, is_le: bool) -> (r: TimestampDecoder)
        ensures
            r == Self::new_spec(ts_type, is_le),
            r.wf(0),
    {
        TimestampDecoder { ts: 0, ts_span: 0, ts_sz: 0, ts_type, is_le }
    }

    /// Takes `nibble`, the `span`-th nibble of the packet.  Returns the
    /// timestamp once it is complete, or the error that ends it.
    pub fn decode(&mut self, nibble: u8, span: usize) -> (r: Option<Result<Timestamp, ErrorReason>>)
        requires
            1 <= span <= 64,
            old(self).wf((span - 1) as usize),
        ensures
            (*final(self), r) == old(self).decode_spec(nibble, span),
            r is None ==> final(self).wf(span) && span < final(self).ts_span,
            r is None && old(self).ts_span != 0 ==> final(self).ts_span == old(self).ts_span,
    {
        if span <= self.ts_span {
            self.ts = self.ts << 4 | nibble as u64;
            if span == self.ts_span {
                return Some(Ok(self.finish_timestamp()));
            }
            None
        } else if matches!(self.ts_type, TimestampType::STPv1LEGACY) {
            self.ts_sz = 2;
            self.ts_span = span + 1;
            self.ts = self.ts << 4 | nibble as u64;
            None
        } else {
            self.ts_span = span;
            match decode_timestamp_sz(nibble) {
                None => Some(Err(ErrorReason::InvalidTimestampSize)),
                Some(sz) => {
                    if sz == 0 {
                        Some(Ok(self.finish_timestamp()))
                    } else {
                        self.ts_sz = sz;
                        self.ts_span = span + sz as usize;
                        None
                    }
                },
            }
        }
    }

    /// Builds the timestamp from the nibbles read.
    pub fn finish_timestamp(&self) -> (r: Timestamp)
        requires
            self.ts_sz <= 16,
        ensures
            r == self.finish_spec(),
    {
        let value = if self.ts_sz > 1 && self.is_le {
            swap_nibbles(self.ts, self.ts_sz as usize)
        } else {
            self.ts
        };
        match self.ts_type {
            TimestampType::STPv1LEGACY => Timestamp::STPv1 { value: value as u8 },
            TimestampType::STPv2NATDELTA => Timestamp::STPv2NATDELTA {
                length: self.ts_sz,
                value,
            },
            TimestampType::STPv2NAT => Timestamp::STPv2NAT { length: self.ts_sz, value },
            TimestampType::STPv2GRAY => Timestamp::STPv2GRAY { length: self.ts_sz, value },
        }
    }
}

/// Collects the payload, and the timestamp if there is one, of a
/// data-carrying packet.
#[derive(Debug, PartialEq, Eq, Copy, Clone)]
pub struct DataDecoder {
    /// Payload nibbles read so far, most significant first.
    pub data: u64,
    /// Size of the payload in nibbles.
    pub data_sz: usize,
    /// Span of the packet at which the payload ends.
    pub data_span: usize,
    pub opcode: OpCode,
    pub is_le: bool,
    pub ts_decoder: Option<TimestampDecoder>,
}

impl DataDecoder {
    /// A decoder that has seen nothing of the payload yet.
    pub open spec fn new_spec(
        opcode: OpCode,
        is_le: bool,
        data_sz: usize,
        span: usize,
        ts_type: Option<TimestampType>,
    ) -> DataDecoder {
        DataDecoder {
            data: 0,
            data_sz,
            data_span: (span + data_sz) as usize,
            opcode,
            is_le,
            ts_decoder: match ts_type {
                Some(tt) => Some(TimestampDecoder::new_spec(tt, is_le)),
                None => None,
            },
        }
    }

    /// The decoder is consistent after `span` nibbles of the packet, and
    /// the packet is not complete.
    pub open spec fn wf(self, span: usize) -> bool {
        &&& self.opcode.payload_kind() is Some
        &&& self.data_sz <= 16
        &&& self.data_sz <= self.data_span <= 20
        &&& match self.ts_decoder {
            None => span < self.data_span,
            Some(t) => if span < self.data_span {
                t == TimestampDecoder::new_spec(t.ts_type, t.is_le)
            } else {
                &&& t.wf(span)
                &&& t.ts_span == 0 ==> span == self.data_span
                &&& t.ts_span != 0 ==> t.ts_span <= self.data_span + 17
            },
        }
    }

    /// The packet made of the payload read and of `timestamp`.
    pub open spec fn finish_spec(self, timestamp: Option<Timestamp>) -> stp::Packet {
        let opcode = self.opcode;
        let data = if self.data_sz > 1 && self.is_le {
            swap_nibbles_spec(self.data, self.data_sz as nat)
        } else {
            self.data
        };
        match opcode.payload_kind() {
            Some(PayloadKind::Master) => stp::Packet::Master { opcode, master: data as u16 },
            Some(PayloadKind::Error) => stp::Packet::Error { opcode, data: data as u8 },
            Some(PayloadKind::Channel) => stp::Packet::Channel { opcode, channel: data as u16 },
            Some(PayloadKind::Flag) => stp::Packet::Flag { timestamp },
            Some(PayloadKind::Frequency) => stp::Packet::Frequency {
                opcode,
                frequency: data,
                timestamp,
            },
            _ => stp::Packet::Data { opcode, data, timestamp },
        }
    }

    /// The decoder after `nibble`, the `span`-th nibble of the packet, and
    /// the packet or error that the nibble completes.
    pub open spec fn decode_spec(self, nibble: u8, span: usize) -> (
        DataDecoder,
        Option<Result<stp::Packet, ErrorReason>>,
    ) {
        if span <= self.data_span {
            let d = DataDecoder { data: self.data << 4 | nibble as u64, ..self };
            (
                d,
                if span == self.data_span && self.ts_decoder is None {
                    Some(Ok(d.finish_spec(None)))
                } else {
                    None
                },
            )
        } else {
            match self.ts_decoder {
                None => (self, None),
                Some(t) => {
                    let (t2, r) = t.decode_spec(nibble, span);
                    let d = DataDecoder { ts_decoder: Some(t2), ..self };
                    (
                        d,
                        match r {
                            None => None,
                            Some(Err(reason)) => Some(Err(reason)),
                            Some(Ok(ts)) => Some(Ok(d.finish_spec(Some(ts)))),
                        },
                    )
                },
            }
        }
    }

    /// A decoder for the payload of `opcode`, which took `span` nibbles
    /// and is followed by `data_sz` payload nibbles and, if `ts_type` is
    /// given, a timestamp of that type.
    pub fn new(
        opcode: OpCode,
        is_le: bool,
        data_sz: usize,
        span: usize,
        ts_type: Option<TimestampType>,
    ) -> (r: DataDecoder)
        requires
            span + data_sz <= usize::MAX,
        ensures
            r == Self::new_spec(opcode, is_le, data_sz, span, ts_type),
    {
        let ts_decoder = match ts_type {
            Some(tt) => Some(TimestampDecoder::new(tt, is_le)),
            None => None,
        };
        DataDecoder { data: 0, data_sz, data_span: span + data_sz, opcode, is_le, ts_decoder }
    }

    /// Takes `nibble`, the `span`-th nibble of the packet.  Returns the
    /// packet once it is complete, or the error that ends it.
    pub fn decode(&mut self, nibble: u8, span: usize) -> (r: Option<
        Result<stp::Packet, ErrorReason>,
    >)
        requires
            span >= 1,
            old(self).wf((span - 1) as usize),
        ensures
            (*final(self), r) == old(self).decode_spec(nibble, span),
            r is None ==> final(self).wf(span),
    {
        if span <= self.data_span {
            self.data = self.data << 4 | nibble as u64;
            if span == self.data_span && self.ts_decoder.is_none() {
                Some(Ok(self.finish(None)))
            } else {
                None
            }
        } else {
            match self.ts_decoder {
                None => None,
                Some(t) => {
                    let mut t = t;
                    let r = t.decode(nibble, span);
                    self.ts_decoder = Some(t);
                    match r {
                        None => None,
                        Some(Err(reason)) => Some(Err(reason)),
                        Some(Ok(ts)) => Some(Ok(self.finish(Some(ts)))),
                    }
                },
            }
        }
    }

    /// Builds the packet from the payload read and `timestamp`.
    pub fn finish(&self, timestamp: Option<Timestamp>) -> (r: stp::Packet)
        requires
            self.data_sz <= 16,
        ensures
            r == self.finish_spec(timestamp),
    {
        let opcode = self.opcode;
        let data = if self.data_sz > 1 && self.is_le {
            swap_nibbles(self.data, self.data_sz)
        } else {
            self.data
        };
        match opcode {
            OpCode::M8 | OpCode::M16 => stp::Packet::Master { opcode, master: data as u16 },
            OpCode::MERR | OpCode::GERR => stp::Packet::Error { opcode, data: data as u8 },
            OpCode::C8 | OpCode::C16 => stp::Packet::Channel { opcode, channel: data as u16 },
            OpCode::FLAG_TS => stp::Packet::Flag { timestamp },
            OpCode::FREQ | OpCode::FREQ_TS | OpCode::FREQ_40 | OpCode::FREQ_40_TS => {
                stp::Packet::Frequency { opcode, frequency: data, timestamp }
            },
            _ => stp::Packet::Data { opcode, data, timestamp },
        }
    }
}

/// What the decoder is doing.
#[derive(Debug, PartialEq, Eq, Copy, Clone)]
pub enum DecoderState {
    /// Looking for an ASYNC packet.
    Unsynced,
    /// Reading an opcode.
    OpCode,
    /// Reading the payload of a VERSION packet; holds the nibble before the
    /// current one.
    Version(u8),
    /// Reading the payload and timestamp of a data-carrying packet.
    Data(DataDecoder),
}

/// The STP decoder's state.
#[derive(Debug, PartialEq, Eq, Copy, Clone)]
pub struct StpDecoder {
    /// What the decoder is doing.
    pub state: DecoderState,
    /// Offset, in nibbles, of the next nibble handed to the state machine.
    pub offset: usize,
    /// Number of consecutive `0xF` nibbles held back.
    pub f_count: u8,
    /// Offset at which the current packet started.
    pub start: usize,
    /// Number of nibbles of the current packet read so far.
    pub span: usize,
    /// Opcode of the current packet, once it is known.
    pub opcode: Option<OpCode>,
    /// Timestamp type set by the last VERSION packet.
    pub ts_type: Option<TimestampType>,
    /// Whether payloads are little endian.
    pub is_le: bool,
}

/// The sequence that holds `r`, if there is one, and nothing else.
pub open spec fn opt_seq(r: Option<PacketResult>) -> Seq<PacketResult> {
    match r {
        Some(v) => seq![v],
        None => Seq::empty(),
    }
}

/// The timestamp type that the first payload nibble of a VERSION packet
/// selects.
pub open spec fn version_ts_type(nibble: u8) -> Option<TimestampType> {
    let v = nibble & 0x7;
    if v == 0 || v == 1 {
        Some(TimestampType::STPv1LEGACY)
    } else if v == 2 {
        Some(TimestampType::STPv2NATDELTA)
    } else if v == 3 {
        Some(TimestampType::STPv2NAT)
    } else if v == 4 {
        Some(TimestampType::STPv2GRAY)
    } else {
        None
    }
}

impl StpDecoder {
    /// The state of a new decoder.
    pub open spec fn new_spec() -> StpDecoder {
        StpDecoder {
            state: DecoderState::Unsynced,
            offset: 0,
            f_count: 0,
            start: 0,
            span: 0,
            opcode: None,
            ts_type: None,
            is_le: false,
        }
    }

    /// The state is one that a decoder can reach.
    pub open spec fn wf(self) -> bool {
        &&& self.f_count <= ASYNC_F_COUNT
        &&& self.span <= self.offset
        &&& match self.state {
            DecoderState::Unsynced => true,
            DecoderState::OpCode => self.span <= 3,
            DecoderState::Version(prior) => 3 <= self.span <= 5 && prior < 16 && (self.span >= 4
                ==> self.ts_type is Some),
            DecoderState::Data(d) => d.wf(self.span),
        }
    }

    /// Number of nibbles that the decoder has been fed.
    pub open spec fn consumed(self) -> int {
        self.offset + self.f_count
    }

    /// The decoder in state `state`; between packets the span and the
    /// opcode are cleared.
    pub open spec fn with_state(self, state: DecoderState) -> StpDecoder {
        match state {
            DecoderState::Unsynced | DecoderState::OpCode => StpDecoder {
                state,
                span: 0,
                opcode: None,
                ..self
            },
            _ => StpDecoder { state, ..self },
        }
    }

    /// The error `reason`, placed at the current packet.
    pub open spec fn error_here(self, reason: ErrorReason) -> PacketResult {
        Err(Error { reason, start: self.start, span: self.span })
    }

    /// The packet `packet`, placed at the current packet's nibbles.
    pub open spec fn packet_here(self, packet: stp::Packet) -> PacketResult {
        Ok(Packet { packet, start: self.start, span: self.span })
    }

    /// The error owed for a packet that an ASYNC cuts short, if the decoder
    /// is in the middle of one.
    pub open spec fn truncation(self) -> Option<PacketResult> {
        if self.state is Unsynced || self.span == 0 {
            None
        } else {
            Some(self.error_here(ErrorReason::TruncatedPacket { opcode: self.opcode }))
        }
    }

    /// An opcode nibble, with the span already counting it.
    #[verifier::opaque]
    pub open spec fn opcode_spec(self, nibble: u8) -> (StpDecoder, Option<PacketResult>) {
        let s = if self.span == 1 {
            StpDecoder { start: self.offset, ..self }
        } else {
            self
        };
        match opcode_step(s.span, nibble) {
            OpcodeStep::Continue => (s, None),
            OpcodeStep::Null => (StpDecoder { span: 0, ..s }, None),
            OpcodeStep::Flag => (
                s.with_state(DecoderState::OpCode),
                Some(s.packet_here(stp::Packet::Flag { timestamp: None })),
            ),
            OpcodeStep::Version => (s.with_state(DecoderState::Version(0)), None),
            OpcodeStep::Data { opcode, data_sz, has_timestamp } => match s.ts_type {
                None => (
                    s.with_state(DecoderState::Unsynced),
                    Some(s.error_here(ErrorReason::MissingVersion)),
                ),
                Some(tt) => (
                    StpDecoder {
                        opcode: Some(opcode),
                        ..s.with_state(
                            DecoderState::Data(
                                DataDecoder::new_spec(
                                    opcode,
                                    s.is_le,
                                    data_sz,
                                    s.span,
                                    if has_timestamp {
                                        Some(tt)
                                    } else {
                                        None
                                    },
                                ),
                            ),
                        )
                    },
                    None,
                ),
            },
            OpcodeStep::Invalid { value } => (
                s.with_state(DecoderState::Unsynced),
                Some(s.error_here(ErrorReason::InvalidOpCode { value })),
            ),
        }
    }

    /// A nibble of a VERSION payload, with the span already counting it;
    /// `prior` is the nibble before it.
    #[verifier::opaque]
    pub open spec fn version_spec(self, prior: u8, nibble: u8) -> (
        StpDecoder,
        Option<PacketResult>,
    ) {
        if self.span == 4 {
            match version_ts_type(nibble) {
                None => (
                    self.with_state(DecoderState::Unsynced),
                    Some(self.error_here(ErrorReason::InvalidTimestampType { value: nibble & 0x7 })),
                ),
                Some(ts_type) => {
                    if nibble & 0x8 == 0 {
                        let s = StpDecoder { ts_type: Some(ts_type), is_le: false, ..self };
                        (
                            s.with_state(DecoderState::OpCode),
                            Some(
                                s.packet_here(
                                    stp::Packet::Version {
                                        version: if nibble == 0 {
                                            StpVersion::STPv1
                                        } else {
                                            StpVersion::STPv2_1
                                        },
                                        ts_type,
                                        is_le: false,
                                    },
                                ),
                            ),
                        )
                    } else {
                        (StpDecoder { ts_type: Some(ts_type), ..self }, None)
                    }
                },
            }
        } else if self.span == 5 {
            (StpDecoder { state: DecoderState::Version(nibble), ..self }, None)
        } else {
            let payload = prior << 4 | nibble;
            let s = StpDecoder { is_le: payload & 0x80 == 0x80, ..self };
            if payload & 0x7F == 0x01 && s.ts_type is Some {
                (
                    s.with_state(DecoderState::OpCode),
                    Some(
                        s.packet_here(
                            stp::Packet::Version {
                                version: StpVersion::STPv2_2,
                                ts_type: s.ts_type->Some_0,
                                is_le: s.is_le,
                            },
                        ),
                    ),
                )
            } else {
                (
                    s.with_state(DecoderState::Unsynced),
                    Some(s.error_here(ErrorReason::InvalidVersion { value: payload & 0x7F })),
                )
            }
        }
    }

    /// A nibble of a data-carrying packet, with the span already counting
    /// it; `d` is the packet's decoder.
    #[verifier::opaque]
    pub open spec fn data_spec(self, d: DataDecoder, nibble: u8) -> (
        StpDecoder,
        Option<PacketResult>,
    ) {
        let (d2, r) = d.decode_spec(nibble, self.span);
        match r {
            None => (StpDecoder { state: DecoderState::Data(d2), ..self }, None),
            Some(Ok(packet)) => (
                self.with_state(DecoderState::OpCode),
                Some(self.packet_here(packet)),
            ),
            Some(Err(reason)) => (
                self.with_state(DecoderState::Unsynced),
                Some(self.error_here(reason)),
            ),
        }
    }

    /// One nibble handed to the state machine: the state after it and what
    /// it completes.  This function and the three that it rests on, for the
    /// opcode, the VERSION payload and the data, are opaque, to keep them out
    /// of proofs that do not look into them; `reveal` opens them.
    #[verifier::opaque]
    pub open spec fn deliver(self, nibble: u8) -> (StpDecoder, Option<PacketResult>) {
        let s = StpDecoder { span: (self.span + 1) as usize, ..self };
        let (s2, r) = match s.state {
            DecoderState::Unsynced => (s, None),
            DecoderState::OpCode => s.opcode_spec(nibble),
            DecoderState::Version(prior) => s.version_spec(prior, nibble),
            DecoderState::Data(d) => s.data_spec(d, nibble),
        };
        (StpDecoder { offset: (s2.offset + 1) as usize, ..s2 }, r)
    }

    /// `count` nibbles `0xF` handed to the state machine one after the
    /// other.
    pub open spec fn deliver_fs(self, count: nat) -> (StpDecoder, Seq<PacketResult>)
        decreases count,
    {
        if count == 0 {
            (self, Seq::empty())
        } else {
            let (s1, e1) = self.deliver_fs((count - 1) as nat);
            let (s2, r) = s1.deliver(0xF);
            (s2, e1 + opt_seq(r))
        }
    }

    /// An ASYNC packet has been recognized: the packet it cuts short, if
    /// any, is reported, then the ASYNC; the decoder expects an opcode and
    /// has forgotten the last VERSION.
    pub open spec fn async_spec(self) -> (StpDecoder, Seq<PacketResult>) {
        (
            StpDecoder {
                offset: (self.offset + ASYNC_F_COUNT + 1) as usize,
                ts_type: None,
                is_le: false,
                f_count: 0,
                ..self.with_state(DecoderState::OpCode)
            },
            opt_seq(self.truncation()).push(
                Ok(
                    Packet {
                        packet: stp::Packet::Async,
                        start: self.offset,
                        span: (ASYNC_F_COUNT + 1) as usize,
                    },
                ),
            ),
        )
    }

    /// Twenty-one `0xF` nibbles were followed by `bad_nibble`, which is
    /// neither `0x0` nor `0xF`: the packet cut short, if any, is reported,
    /// then the invalid ASYNC; the decoder is unsynchronized.
    pub open spec fn invalid_async_spec(self, bad_nibble: u8) -> (StpDecoder, Seq<PacketResult>) {
        (
            StpDecoder {
                offset: (self.offset + ASYNC_F_COUNT + 1) as usize,
                f_count: 0,
                ..self.with_state(DecoderState::Unsynced)
            },
            opt_seq(self.truncation()).push(
                Err(
                    Error {
                        reason: ErrorReason::InvalidAsync { bad_nibble },
                        start: self.offset,
                        span: (ASYNC_F_COUNT + 1) as usize,
                    },
                ),
            ),
        )
    }

    /// One nibble of input: the state after it and what it completes, in
    /// order.  `0xF` nibbles are held back, up to twenty-one of them, until
    /// it is known whether they open an ASYNC.
    pub open spec fn step(self, nibble: u8) -> (StpDecoder, Seq<PacketResult>) {
        if nibble == 0xF {
            if self.f_count < ASYNC_F_COUNT {
                (StpDecoder { f_count: (self.f_count + 1) as u8, ..self }, Seq::empty())
            } else {
                let (s, r) = self.deliver(0xF);
                (s, opt_seq(r))
            }
        } else if self.f_count == ASYNC_F_COUNT {
            if nibble == 0 {
                self.async_spec()
            } else {
                self.invalid_async_spec(nibble)
            }
        } else {
            let (s1, e1) = self.deliver_fs(self.f_count as nat);
            let (s2, r) = s1.deliver(nibble);
            (StpDecoder { f_count: 0, ..s2 }, e1 + opt_seq(r))
        }
    }

    /// A sequence of nibbles of input: the state after them and what they
    /// complete, in order.
    pub open spec fn run(self, nibbles: Seq<u8>) -> (StpDecoder, Seq<PacketResult>)
        decreases nibbles.len(),
    {
        if nibbles.len() == 0 {
            (self, Seq::empty())
        } else {
            let (s1, e1) = self.run(nibbles.drop_last());
            let (s2, e2) = s1.step(nibbles.last());
            (s2, e1 + e2)
        }
    }

    /// A sequence of bytes of input, each taken as its low nibble followed
    /// by its high nibble.
    pub open spec fn run_bytes(self, bytes: Seq<u8>) -> (StpDecoder, Seq<PacketResult>)
        decreases bytes.len(),
    {
        if bytes.len() == 0 {
            (self, Seq::empty())
        } else {
            let (s1, e1) = self.run_bytes(bytes.drop_last());
            let (s2, e2) = s1.step(bytes.last() & 0xF);
            let (s3, e3) = s2.step(bytes.last() >> 4);
            (s3, e1 + e2 + e3)
        }
    }
}

/// Handing a nibble to the state machine keeps the state well formed and
/// moves the offset by one.
pub proof fn lemma_deliver_wf(s: StpDecoder, nibble: u8)
    requires
        s.wf(),
        nibble < 16,
        s.offset < usize::MAX,
    ensures
        s.deliver(nibble).0.wf(),
        s.deliver(nibble).0.offset == s.offset + 1,
        s.deliver(nibble).0.f_count == s.f_count,
{
    reveal(StpDecoder::deliver);
    let s1 = StpDecoder { span: (s.span + 1) as usize, ..s };
    match s1.state {
        DecoderState::Unsynced => {},
        DecoderState::OpCode => {
            reveal(StpDecoder::opcode_spec);
            lemma_opcode_table(s1.span, nibble);
        },
        DecoderState::Version(prior) => {
            reveal(StpDecoder::version_spec);
        },
        DecoderState::Data(d) => {
            reveal(StpDecoder::data_spec);
            lemma_data_decode_wf(d, nibble, s1.span);
        },
    }
}

proof fn lemma_data_decode_wf(d: DataDecoder, nibble: u8, span: usize)
    requires
        span >= 1,
        d.wf((span - 1) as usize),
    ensures
        d.decode_spec(nibble, span).1 is None ==> d.decode_spec(nibble, span).0.wf(span),
{
}

/// Handing `count` nibbles `0xF` to the state machine keeps the state well
/// formed and moves the offset by `count`.
pub proof fn lemma_deliver_fs_wf(s: StpDecoder, count: nat)
    requires
        s.wf(),
        s.offset + count <= usize::MAX,
    ensures
        s.deliver_fs(count).0.wf(),
        s.deliver_fs(count).0.offset == s.offset + count,
        s.deliver_fs(count).0.f_count == s.f_count,
    decreases count,
{
    if count > 0 {
        lemma_deliver_fs_wf(s, (count - 1) as nat);
        lemma_deliver_wf(s.deliver_fs((count - 1) as nat).0, 0xF);
    }
}

/// One nibble of input keeps the state well formed and counts as one nibble
/// consumed.
pub proof fn lemma_step_wf(s: StpDecoder, nibble: u8)
    requires
        s.wf(),
        nibble < 16,
        s.consumed() < usize::MAX,
    ensures
        s.step(nibble).0.wf(),
        s.step(nibble).0.consumed() == s.consumed() + 1,
{
    if nibble == 0xF {
        if s.f_count >= ASYNC_F_COUNT {
            lemma_deliver_wf(s, 0xF);
        }
    } else if s.f_count == ASYNC_F_COUNT {
    } else {
        lemma_deliver_fs_wf(s, s.f_count as nat);
        lemma_deliver_wf(s.deliver_fs(s.f_count as nat).0, nibble);
    }
}

fn push_opt(events: &mut Vec<PacketResult>, r: Option<PacketResult>)
    ensures
        final(events)@ == old(events)@ + opt_seq(r),
{
    match r {
        Some(v) => {
            events.push(v);
            assert(events@ =~= old(events)@ + opt_seq(r));
        },
        None => {
            assert(events@ =~= old(events)@ + opt_seq(r));
        },
    }
}

fn hand_over<F>(events: &Vec<PacketResult>, handler: &mut F) where F: FnMut(PacketResult)
    requires
        forall|r: PacketResult| call_requires(*old(handler), (r,)),
    ensures
        *final(handler) == *old(handler),
        forall|i: int|
            0 <= i < events@.len() ==> call_ensures(*old(handler), (#[trigger] events@[i],), ()),
{
    let mut i: usize = 0;
    while i < events.len()
        invariant
            i <= events@.len(),
            *handler == *old(handler),
            forall|r: PacketResult| call_requires(*handler, (r,)),
            forall|j: int|
                0 <= j < i ==> call_ensures(*old(handler), (#[trigger] events@[j],), ()),
        decreases events@.len() - i,
    {
        let e = events[i];
        let u = handler(e);
        assert(u == ());
        i = i + 1;
    }
}

impl StpDecoder {
    /// Creates a decoder, which is unsynchronized until it sees an ASYNC.
    pub fn new() -> (r: StpDecoder)
        ensures
            r == Self::new_spec(),
            r.wf(),
    {
        StpDecoder {
            state: DecoderState::Unsynced,
            offset: 0,
            f_count: 0,
            start: 0,
            span: 0,
            opcode: None,
            ts_type: None,
            is_le: false,
        }
    }

    fn report_error(&self, reason: ErrorReason) -> (r: PacketResult)
        ensures
            r == self.error_here(reason),
    {
        Err(Error { reason, start: self.start, span: self.span })
    }

    fn report_packet(&self, packet: stp::Packet) -> (r: PacketResult)
        ensures
            r == self.packet_here(packet),
    {
        Ok(Packet { packet, start: self.start, span: self.span })
    }

    fn set_state(&mut self, new_state: DecoderState)
        ensures
            *final(self) == old(self).with_state(new_state),
    {
        match new_state {
            DecoderState::Unsynced | DecoderState::OpCode => {
                self.span = 0;
                self.opcode = None;
            },
            _ => {},
        }
        self.state = new_state;
    }

    fn truncated_packet_check(&self) -> (r: Option<PacketResult>)
        ensures
            r == self.truncation(),
    {
        if matches!(self.state, DecoderState::Unsynced) {
            None
        } else if self.span == 0 {
            None
        } else {
            Some(self.report_error(ErrorReason::TruncatedPacket { opcode: self.opcode }))
        }
    }

    fn handle_async(&mut self) -> (events: Vec<PacketResult>)
        requires
            old(self).offset + ASYNC_F_COUNT + 1 <= usize::MAX,
        ensures
            (*final(self), events@) == old(self).async_spec(),
    {
        let span: usize = ASYNC_F_COUNT as usize + 1;
        let mut events: Vec<PacketResult> = Vec::new();
        let truncated = self.truncated_packet_check();
        push_opt(&mut events, truncated);
        events.push(Ok(Packet { packet: stp::Packet::Async, start: self.offset, span }));
        self.offset = self.offset + span;
        // An ASYNC must be followed by a VERSION packet: forget the last one.
        self.ts_type = None;
        self.is_le = false;
        self.f_count = 0;
        self.set_state(DecoderState::OpCode);
        assert(events@ =~= old(self).async_spec().1);
        events
    }

    fn handle_invalid_async(&mut self, bad_nibble: u8) -> (events: Vec<PacketResult>)
        requires
            old(self).offset + ASYNC_F_COUNT + 1 <= usize::MAX,
        ensures
            (*final(self), events@) == old(self).invalid_async_spec(bad_nibble),
    {
        let span: usize = ASYNC_F_COUNT as usize + 1;
        let mut events: Vec<PacketResult> = Vec::new();
        let truncated = self.truncated_packet_check();
        push_opt(&mut events, truncated);
        events.push(
            Err(Error { reason: ErrorReason::InvalidAsync { bad_nibble }, start: self.offset, span }),
        );
        self.offset = self.offset + span;
        self.f_count = 0;
        self.set_state(DecoderState::Unsynced);
        assert(events@ =~= old(self).invalid_async_spec(bad_nibble).1);
        events
    }

    fn set_data_state(&mut self, opcode: OpCode, data_sz: usize, has_timestamp: bool) -> (r: Option<
        PacketResult,
    >)
        requires
            old(self).span + data_sz <= usize::MAX,
        ensures
            (*final(self), r) == match old(self).ts_type {
                None => (
                    old(self).with_state(DecoderState::Unsynced),
                    Some(old(self).error_here(ErrorReason::MissingVersion)),
                ),
                Some(tt) => (
                    StpDecoder {
                        opcode: Some(opcode),
                        ..old(self).with_state(
                            DecoderState::Data(
                                DataDecoder::new_spec(
                                    opcode,
                                    old(self).is_le,
                                    data_sz,
                                    old(self).span,
                                    if has_timestamp {
                                        Some(tt)
                                    } else {
                                        None
                                    },
                                ),
                            ),
                        )
                    },
                    None,
                ),
            },
    {
        match self.ts_type {
            None => {
                let r = self.report_error(ErrorReason::MissingVersion);
                self.set_state(DecoderState::Unsynced);
                Some(r)
            },
            Some(tt) => {
                let d = DataDecoder::new(
                    opcode,
                    self.is_le,
                    data_sz,
                    self.span,
                    if has_timestamp {
                        Some(tt)
                    } else {
                        None
                    },
                );
                self.set_state(DecoderState::Data(d));
                self.opcode = Some(opcode);
                None
            },
        }
    }

    fn handle_invalid_opcode(&mut self, bad_opcode: u16) -> (r: PacketResult)
        ensures
            *final(self) == old(self).with_state(DecoderState::Unsynced),
            r == old(self).error_here(ErrorReason::InvalidOpCode { value: bad_opcode }),
    {
        let r = self.report_error(ErrorReason::InvalidOpCode { value: bad_opcode });
        self.set_state(DecoderState::Unsynced);
        r
    }

    fn handle_flag_packet(&mut self) -> (r: PacketResult)
        ensures
            *final(self) == old(self).with_state(DecoderState::OpCode),
            r == old(self).packet_here(stp::Packet::Flag { timestamp: None }),
    {
        let r = self.report_packet(stp::Packet::Flag { timestamp: None });
        self.set_state(DecoderState::OpCode);
        r
    }

    fn decode_opcode(&mut self, nibble: u8) -> (r: Option<PacketResult>)
        requires
            1 <= old(self).span <= 4,
            nibble < 16,
        ensures
            (*final(self), r) == old(self).opcode_spec(nibble),
    {
        proof {
            reveal(StpDecoder::opcode_spec);
        }
        if self.span == 1 {
            self.start = self.offset;
        }
        match decode_opcode_nibble(self.span, nibble) {
            OpcodeStep::Continue => None,
            OpcodeStep::Null => {
                self.span = 0;
                None
            },
            OpcodeStep::Flag => Some(self.handle_flag_packet()),
            OpcodeStep::Version => {
                self.set_state(DecoderState::Version(0));
                None
            },
            OpcodeStep::Data { opcode, data_sz, has_timestamp } => {
                proof {
                    lemma_opcode_table(self.span, nibble);
                }
                self.set_data_state(opcode, data_sz, has_timestamp)
            },
            OpcodeStep::Invalid { value } => Some(self.handle_invalid_opcode(value)),
        }
    }

    fn decode_version(&mut self, prior: u8, nibble: u8) -> (r: Option<PacketResult>)
        requires
            4 <= old(self).span <= 6,
            old(self).span >= 5 ==> old(self).ts_type is Some,
            prior < 16,
            nibble < 16,
        ensures
            (*final(self), r) == old(self).version_spec(prior, nibble),
    {
        proof {
            reveal(StpDecoder::version_spec);
        }
        if self.span == 4 {
            let v = nibble & 0x7;
            let ts_type = if v == 0 || v == 1 {
                TimestampType::STPv1LEGACY
            } else if v == 2 {
                TimestampType::STPv2NATDELTA
            } else if v == 3 {
                TimestampType::STPv2NAT
            } else if v == 4 {
                TimestampType::STPv2GRAY
            } else {
                let r = self.report_error(ErrorReason::InvalidTimestampType { value: v });
                self.set_state(DecoderState::Unsynced);
                return Some(r);
            };
            self.ts_type = Some(ts_type);
            if nibble & 0x8 == 0 {
                self.is_le = false;
                let r = self.report_packet(
                    stp::Packet::Version {
                        version: if nibble == 0 {
                            StpVersion::STPv1
                        } else {
                            StpVersion::STPv2_1
                        },
                        ts_type,
                        is_le: false,
                    },
                );
                self.set_state(DecoderState::OpCode);
                Some(r)
            } else {
                None
            }
        } else if self.span == 5 {
            self.state = DecoderState::Version(nibble);
            None
        } else {
            let payload = prior << 4 | nibble;
            self.is_le = payload & 0x80 == 0x80;
            match self.ts_type {
                Some(ts_type) => {
                    if payload & 0x7F == 0x01 {
                        let r = self.report_packet(
                            stp::Packet::Version {
                                version: StpVersion::STPv2_2,
                                ts_type,
                                is_le: self.is_le,
                            },
                        );
                        self.set_state(DecoderState::OpCode);
                        return Some(r);
                    }
                },
                None => {},
            }
            let r = self.report_error(ErrorReason::InvalidVersion { value: payload & 0x7F });
            self.set_state(DecoderState::Unsynced);
            Some(r)
        }
    }

    fn do_decode_nibble(&mut self, nibble: u8) -> (r: Option<PacketResult>)
        requires
            old(self).wf(),
            nibble < 16,
            old(self).offset < usize::MAX,
        ensures
            (*final(self), r) == old(self).deliver(nibble),
            final(self).wf(),
            final(self).offset == old(self).offset + 1,
            final(self).f_count == old(self).f_count,
    {
        proof {
            reveal(StpDecoder::deliver);
            reveal(StpDecoder::opcode_spec);
            reveal(StpDecoder::version_spec);
            reveal(StpDecoder::data_spec);
            lemma_deliver_wf(*self, nibble);
        }
        self.span = self.span + 1;
        let r = match self.state {
            DecoderState::Unsynced => None,
            DecoderState::OpCode => self.decode_opcode(nibble),
            DecoderState::Version(prior) => self.decode_version(prior, nibble),
            DecoderState::Data(d) => {
                let mut d = d;
                match d.decode(nibble, self.span) {
                    None => {
                        self.state = DecoderState::Data(d);
                        None
                    },
                    Some(Ok(packet)) => {
                        let r = self.report_packet(packet);
                        self.set_state(DecoderState::OpCode);
                        Some(r)
                    },
                    Some(Err(reason)) => {
                        let r = self.report_error(reason);
                        self.set_state(DecoderState::Unsynced);
                        Some(r)
                    },
                }
            },
        };
        self.offset = self.offset + 1;
        r
    }

    /// Takes one nibble of input and returns what it completes, in order.
    pub fn advance(&mut self, nibble: u8) -> (events: Vec<PacketResult>)
        requires
            old(self).wf(),
            nibble < 16,
            old(self).consumed() < usize::MAX,
        ensures
            (*final(self), events@) == old(self).step(nibble),
            final(self).wf(),
            final(self).consumed() == old(self).consumed() + 1,
    {
        proof {
            lemma_step_wf(*self, nibble);
        }
        // An ASYNC can appear anywhere within the stream, so every 0xF nibble
        // is held back until a different nibble arrives or until there are
        // enough of them to open an ASYNC.
        if nibble == 0xF {
            let mut events: Vec<PacketResult> = Vec::new();
            if self.f_count < ASYNC_F_COUNT {
                self.f_count = self.f_count + 1;
            } else {
                let r = self.do_decode_nibble(0xF);
                push_opt(&mut events, r);
            }
            assert(events@ =~= old(self).step(nibble).1);
            events
        } else if self.f_count == ASYNC_F_COUNT {
            if nibble == 0 {
                self.handle_async()
            } else {
                self.handle_invalid_async(nibble)
            }
        } else {
            let mut events: Vec<PacketResult> = Vec::new();
            let count = self.f_count;
            let mut i: u8 = 0;
            while i < count
                invariant
                    i <= count <= ASYNC_F_COUNT,
                    count == old(self).f_count,
                    old(self).wf(),
                    old(self).offset + count < usize::MAX,
                    (*self, events@) == old(self).deliver_fs(i as nat),
                    self.wf(),
                    self.offset == old(self).offset + i,
                decreases count - i,
            {
                let r = self.do_decode_nibble(0xF);
                push_opt(&mut events, r);
                i = i + 1;
            }
            let r = self.do_decode_nibble(nibble);
            push_opt(&mut events, r);
            self.f_count = 0;
            events
        }
    }

    fn decode_nibble_into<F>(&mut self, nibble: u8, handler: &mut F) where F: FnMut(PacketResult)
        requires
            old(self).wf(),
            nibble < 16,
            old(self).consumed() < usize::MAX,
            forall|r: PacketResult| call_requires(*old(handler), (r,)),
        ensures
            *final(self) == old(self).step(nibble).0,
            final(self).wf(),
            final(self).consumed() == old(self).consumed() + 1,
            *final(handler) == *old(handler),
            forall|i: int|
                0 <= i < old(self).step(nibble).1.len() ==> call_ensures(
                    *old(handler),
                    (#[trigger] old(self).step(nibble).1[i],),
                    (),
                ),
    {
        let events = self.advance(nibble);
        hand_over(&events, handler);
    }

    /// Decodes one nibble and hands what it completes to `handler`, in
    /// order.
    pub fn decode_nibble<F>(&mut self, nibble: u8, handler: F) where F: FnMut(PacketResult)
        requires
            old(self).wf(),
            nibble < 16,
            old(self).consumed() < usize::MAX,
            forall|r: PacketResult| call_requires(handler, (r,)),
        ensures
            *final(self) == old(self).step(nibble).0,
            final(self).wf(),
            final(self).consumed() == old(self).consumed() + 1,
            forall|i: int|
                0 <= i < old(self).step(nibble).1.len() ==> call_ensures(
                    handler,
                    (#[trigger] old(self).step(nibble).1[i],),
                    (),
                ),
    {
        let mut handler = handler;
        self.decode_nibble_into(nibble, &mut handler);
    }

    /// Decodes a stream of nibbles and hands what they complete to
    /// `handler`, in order.
    pub fn decode_nibbles<F>(&mut self, nibbles: &[u8], handler: F) where F: FnMut(PacketResult)
        requires
            old(self).wf(),
            forall|i: int| 0 <= i < nibbles@.len() ==> nibbles@[i] < 16,
            old(self).consumed() + nibbles@.len() <= usize::MAX,
            forall|r: PacketResult| call_requires(handler, (r,)),
        ensures
            *final(self) == old(self).run(nibbles@).0,
            final(self).wf(),
            final(self).consumed() == old(self).consumed() + nibbles@.len(),
            forall|i: int|
                0 <= i < old(self).run(nibbles@).1.len() ==> call_ensures(
                    handler,
                    (#[trigger] old(self).run(nibbles@).1[i],),
                    (),
                ),
    {
        let mut handler = handler;
        let ghost h0 = handler;
        let mut i: usize = 0;
        while i < nibbles.len()
            invariant
                i <= nibbles@.len(),
                handler == h0,
                old(self).wf(),
                forall|k: int| 0 <= k < nibbles@.len() ==> nibbles@[k] < 16,
                old(self).consumed() + nibbles@.len() <= usize::MAX,
                forall|r: PacketResult| call_requires(handler, (r,)),
                *self == old(self).run(nibbles@.take(i as int)).0,
                self.wf(),
                self.consumed() == old(self).consumed() + i,
                forall|k: int|
                    0 <= k < old(self).run(nibbles@.take(i as int)).1.len() ==> call_ensures(
                        h0,
                        (#[trigger] old(self).run(nibbles@.take(i as int)).1[k],),
                        (),
                    ),
            decreases nibbles@.len() - i,
        {
            proof {
                let next = nibbles@.take(i + 1);
                assert(next.drop_last() =~= nibbles@.take(i as int));
                assert(next.last() == nibbles@[i as int]);
            }
            self.decode_nibble_into(nibbles[i], &mut handler);
            i = i + 1;
        }
        assert(nibbles@.take(i as int) =~= nibbles@);
    }

    /// Decodes a stream of bytes, each holding two nibbles, the low one
    /// first, and hands what they complete to `handler`, in order.
    pub fn decode_bytes<F>(&mut self, bytes: &[u8], handler: F) where F: FnMut(PacketResult)
        requires
            old(self).wf(),
            old(self).consumed() + 2 * bytes@.len() <= usize::MAX,
            forall|r: PacketResult| call_requires(handler, (r,)),
        ensures
            *final(self) == old(self).run_bytes(bytes@).0,
            final(self).wf(),
            final(self).consumed() == old(self).consumed() + 2 * bytes@.len(),
            forall|i: int|
                0 <= i < old(self).run_bytes(bytes@).1.len() ==> call_ensures(
                    handler,
                    (#[trigger] old(self).run_bytes(bytes@).1[i],),
                    (),
                ),
    {
        let mut handler = handler;
        let ghost h0 = handler;
        let mut i: usize = 0;
        while i < bytes.len()
            invariant
                i <= bytes@.len(),
                handler == h0,
                old(self).wf(),
                old(self).consumed() + 2 * bytes@.len() <= usize::MAX,
                forall|r: PacketResult| call_requires(handler, (r,)),
                *self == old(self).run_bytes(bytes@.take(i as int)).0,
                self.wf(),
                self.consumed() == old(self).consumed() + 2 * i,
                forall|k: int|
                    0 <= k < old(self).run_bytes(bytes@.take(i as int)).1.len() ==> call_ensures(
                        h0,
                        (#[trigger] old(self).run_bytes(bytes@.take(i as int)).1[k],),
                        (),
                    ),
            decreases bytes@.len() - i,
        {
            let byte = bytes[i];
            proof {
                let next = bytes@.take(i + 1);
                assert(next.drop_last() =~= bytes@.take(i as int));
                assert(next.last() == byte);
                assert(byte & 0xF < 16 && byte >> 4 < 16) by (bit_vector);
            }
            self.decode_nibble_into(byte & 0xF, &mut handler);
            self.decode_nibble_into(byte >> 4, &mut handler);
            i = i + 1;
        }
        assert(bytes@.take(i as int) =~= bytes@);
    }
}

/// `count` nibbles `0xF`.
pub open spec fn f_nibbles(count: nat) -> Seq<u8> {
    Seq::new(count, |i: int| 0xFu8)
}

/// The nibbles of an ASYNC packet: twenty-one `0xF`, then `0x0`.
pub open spec fn async_nibbles() -> Seq<u8> {
    f_nibbles(ASYNC_F_COUNT as nat).push(0u8)
}

/// The nibbles of a VERSION packet whose first payload nibble is `v` and
/// which, if `v` has bit 3 set, goes on with the payload byte `payload`.
pub open spec fn version_nibbles(v: u8, payload: u8) -> Seq<u8> {
    if v & 0x8 == 0 {
        seq![0xFu8, 0x0u8, 0x0u8, v]
    } else {
        seq![0xFu8, 0x0u8, 0x0u8, v, payload >> 4, payload & 0xF]
    }
}

/// The decoder between two packets, synchronized, with `ts_type` and
/// `is_le` as the last VERSION set them.
pub open spec fn ready(s: StpDecoder, ts_type: Option<TimestampType>, is_le: bool) -> bool {
    s == StpDecoder {
        state: DecoderState::OpCode,
        offset: s.offset,
        f_count: 0,
        start: s.start,
        span: 0,
        opcode: None,
        ts_type,
        is_le,
    }
}

/// Running over a sequence that ends in `nibble` is running over what comes
/// before it and then taking `nibble`.
pub proof fn lemma_run_push(s: StpDecoder, nibbles: Seq<u8>, nibble: u8)
    ensures
        s.run(nibbles.push(nibble)) == (
            s.run(nibbles).0.step(nibble).0,
            s.run(nibbles).1 + s.run(nibbles).0.step(nibble).1,
        ),
{
    assert(nibbles.push(nibble).drop_last() =~= nibbles);
}

/// Running keeps the state well formed and counts every nibble.
pub proof fn lemma_run_wf(s: StpDecoder, nibbles: Seq<u8>)
    requires
        s.wf(),
        forall|i: int| 0 <= i < nibbles.len() ==> nibbles[i] < 16,
        s.consumed() + nibbles.len() <= usize::MAX,
    ensures
        s.run(nibbles).0.wf(),
        s.run(nibbles).0.consumed() == s.consumed() + nibbles.len(),
    decreases nibbles.len(),
{
    if nibbles.len() > 0 {
        lemma_run_wf(s, nibbles.drop_last());
        lemma_step_wf(s.run(nibbles.drop_last()).0, nibbles.last());
    }
}

/// After `count` nibbles `0xF` the decoder holds back as many of them as
/// it can.
pub proof fn lemma_run_fs(s: StpDecoder, count: nat)
    requires
        s.wf(),
        s.consumed() + count <= usize::MAX,
    ensures
        s.run(f_nibbles(count)).0.wf(),
        s.run(f_nibbles(count)).0.consumed() == s.consumed() + count,
        s.run(f_nibbles(count)).0.f_count == if s.f_count + count <= ASYNC_F_COUNT {
            s.f_count + count
        } else {
            ASYNC_F_COUNT as int
        },
    decreases count,
{
    if count > 0 {
        let before = f_nibbles((count - 1) as nat);
        lemma_run_fs(s, (count - 1) as nat);
        assert(f_nibbles(count) =~= before.push(0xFu8));
        lemma_run_push(s, before, 0xF);
        let t = s.run(before).0;
        lemma_step_wf(t, 0xF);
        if t.f_count >= ASYNC_F_COUNT {
            lemma_deliver_wf(t, 0xF);
        }
    }
}

/// The decoder can always be resynchronized: whatever state it is in, after
/// the nibbles of an ASYNC packet it has reported the ASYNC last, expects an
/// opcode, and has forgotten the last VERSION.  Nothing else of the earlier
/// state is left but the offset.
pub proof fn lemma_async_resynchronizes(s: StpDecoder)
    requires
        s.wf(),
        s.consumed() + ASYNC_F_COUNT + 1 <= usize::MAX,
    ensures
        ready(s.run(async_nibbles()).0, None, false),
        s.run(async_nibbles()).0.wf(),
        s.run(async_nibbles()).0.offset == s.consumed() + ASYNC_F_COUNT + 1,
        s.run(async_nibbles()).1.len() > 0,
        s.run(async_nibbles()).1.last() == Ok::<Packet, Error>(
            Packet {
                packet: stp::Packet::Async,
                start: (s.consumed() as usize),
                span: (ASYNC_F_COUNT + 1) as usize,
            },
        ),
{
    let fs = f_nibbles(ASYNC_F_COUNT as nat);
    lemma_run_fs(s, ASYNC_F_COUNT as nat);
    lemma_run_push(s, fs, 0);
    let t = s.run(fs).0;
    assert(t.f_count == ASYNC_F_COUNT);
    assert(t.step(0) == t.async_spec());
}

/// The decoder that has read the opcode of a VERSION packet which started
/// at `start`, and `extra` nibbles of its payload.
pub open spec fn in_version(
    s: StpDecoder,
    start: usize,
    extra: usize,
    prior: u8,
    ts_type: Option<TimestampType>,
) -> bool {
    s == StpDecoder {
        state: DecoderState::Version(prior),
        offset: (start + 3 + extra) as usize,
        f_count: 0,
        start,
        span: (3 + extra) as usize,
        opcode: None,
        ts_type,
        is_le: false,
    }
}

proof fn lemma_version_opcode(s: StpDecoder)
    requires
        ready(s, None, false),
        s.offset + 6 <= usize::MAX,
    ensures
        in_version(s.run(seq![0xFu8, 0x0u8, 0x0u8]).0, s.offset, 0, 0, None),
        s.run(seq![0xFu8, 0x0u8, 0x0u8]).1 == Seq::<PacketResult>::empty(),
{
    reveal_with_fuel(StpDecoder::deliver_fs, 2);
    reveal(StpDecoder::deliver);
    reveal(StpDecoder::opcode_spec);
    let e = Seq::<u8>::empty();
    let s1 = s.step(0xF).0;
    assert(s1 == StpDecoder { f_count: 1, ..s });
    assert(s.step(0xF).1 =~= Seq::<PacketResult>::empty());
    let s2 = s1.step(0).0;
    assert(s2 == StpDecoder { span: 2, start: s.offset, offset: (s.offset + 2) as usize, ..s })
        by {
        let (a, ea) = s1.deliver_fs(1);
        assert(a == s1.deliver(0xF).0);
    }
    assert(s1.step(0).1 =~= Seq::<PacketResult>::empty());
    assert(s2.step(0).1 =~= Seq::<PacketResult>::empty());
    lemma_run_push(s, e, 0xF);
    lemma_run_push(s, e.push(0xF), 0);
    lemma_run_push(s, e.push(0xF).push(0), 0);
    assert(s.run(e) == (s, Seq::<PacketResult>::empty()));
    assert(seq![0xFu8, 0x0u8, 0x0u8] =~= e.push(0xF).push(0).push(0));
    assert(s.run(e.push(0xF).push(0).push(0)).1 =~= Seq::<PacketResult>::empty());
}

proof fn lemma_version_first(s: StpDecoder, start: usize, v: u8)
    requires
        in_version(s, start, 0, 0, None),
        start + 6 <= usize::MAX,
        v < 16,
        version_ts_type(v) is Some,
    ensures
        v & 0x8 == 0 ==> ready(s.step(v).0, version_ts_type(v), false) && s.step(v).0.offset
            == start + 4 && s.step(v).1 == seq![
            Ok::<Packet, Error>(
                Packet {
                    packet: stp::Packet::Version {
                        version: if v == 0 {
                            StpVersion::STPv1
                        } else {
                            StpVersion::STPv2_1
                        },
                        ts_type: version_ts_type(v)->Some_0,
                        is_le: false,
                    },
                    start,
                    span: 4,
                },
            ),
        ],
        v & 0x8 != 0 ==> in_version(s.step(v).0, start, 1, 0, version_ts_type(v)) && s.step(v).1
            == Seq::<PacketResult>::empty(),
{
    reveal_with_fuel(StpDecoder::deliver_fs, 1);
    reveal(StpDecoder::deliver);
    reveal(StpDecoder::version_spec);
    assert(v == 0xF ==> v & 0x7 == 7) by (bit_vector);
    assert(v != 0xF);
    let (t, r) = s.deliver(v);
    assert(s.step(v).0 == StpDecoder { f_count: 0, ..t });
    assert(s.step(v).1 =~= opt_seq(r));
}

proof fn lemma_version_payload(s: StpDecoder, start: usize, ts_type: TimestampType, payload: u8)
    requires
        in_version(s, start, 1, 0, Some(ts_type)),
        start + 6 <= usize::MAX,
        payload & 0x7F == 0x01,
    ensures
        ready(
            s.step(payload >> 4).0.step(payload & 0xF).0,
            Some(ts_type),
            payload & 0x80 == 0x80,
        ),
        s.step(payload >> 4).0.step(payload & 0xF).0.offset == start + 6,
        s.step(payload >> 4).1 == Seq::<PacketResult>::empty(),
        s.step(payload >> 4).0.step(payload & 0xF).1 == seq![
            Ok::<Packet, Error>(
                Packet {
                    packet: stp::Packet::Version {
                        version: StpVersion::STPv2_2,
                        ts_type,
                        is_le: payload & 0x80 == 0x80,
                    },
                    start,
                    span: 6,
                },
            ),
        ],
{
    reveal_with_fuel(StpDecoder::deliver_fs, 1);
    reveal(StpDecoder::deliver);
    reveal(StpDecoder::version_spec);
    let hi = payload >> 4;
    let lo = payload & 0xF;
    assert(hi < 16 && lo == 1 && hi != 0xF && (hi << 4 | lo) == payload) by (bit_vector)
        requires
            hi == payload >> 4,
            lo == payload & 0xF,
            payload & 0x7F == 0x01,
    ;
    let (t, r) = s.deliver(hi);
    assert(r is None);
    let s1 = s.step(hi).0;
    assert(s1 == StpDecoder { f_count: 0, ..t });
    assert(s.step(hi).1 =~= opt_seq(r));
    assert(in_version(s1, start, 2, hi, Some(ts_type)));
    let (t2, r2) = s1.deliver(lo);
    assert(s1.step(lo).0 == StpDecoder { f_count: 0, ..t2 });
    assert(s1.step(lo).1 =~= opt_seq(r2));
}

/// A VERSION packet that follows an ASYNC leaves the decoder between two
/// packets with the timestamp type and the nibble order that the packet
/// names, and is the one thing reported.
pub proof fn lemma_version_after_async(s: StpDecoder, v: u8, payload: u8)
    requires
        ready(s, None, false),
        s.offset + 6 <= usize::MAX,
        v < 16,
        version_ts_type(v) is Some,
        v & 0x8 != 0 ==> payload & 0x7F == 0x01,
    ensures
        ({
            let (t, events) = s.run(version_nibbles(v, payload));
            let is_le = v & 0x8 != 0 && payload & 0x80 == 0x80;
            let span: usize = if v & 0x8 == 0 {
                4
            } else {
                6
            };
            &&& ready(t, version_ts_type(v), is_le)
            &&& t.offset == s.offset + span
            &&& events == seq![
                Ok::<Packet, Error>(
                    Packet {
                        packet: stp::Packet::Version {
                            version: if v & 0x8 != 0 {
                                StpVersion::STPv2_2
                            } else if v == 0 {
                                StpVersion::STPv1
                            } else {
                                StpVersion::STPv2_1
                            },
                            ts_type: version_ts_type(v)->Some_0,
                            is_le,
                        },
                        start: s.offset,
                        span,
                    },
                ),
            ]
        }),
{
    let three = seq![0xFu8, 0x0u8, 0x0u8];
    lemma_version_opcode(s);
    let s3 = s.run(three).0;
    lemma_version_first(s3, s.offset, v);
    lemma_run_push(s, three, v);
    let four = three.push(v);
    let s4 = s3.step(v).0;
    assert(s.run(four).0 == s4);
    assert(s.run(four).1 =~= s3.step(v).1);
    if v & 0x8 == 0 {
        assert(version_nibbles(v, payload) =~= four);
    } else {
        let hi = payload >> 4;
        let lo = payload & 0xF;
        lemma_version_payload(s4, s.offset, version_ts_type(v)->Some_0, payload);
        lemma_run_push(s, four, hi);
        lemma_run_push(s, four.push(hi), lo);
        assert(version_nibbles(v, payload) =~= four.push(hi).push(lo));
        assert(s.run(four.push(hi)).1 =~= Seq::<PacketResult>::empty());
        assert(s.run(four.push(hi).push(lo)).1 =~= s4.step(hi).0.step(lo).1);
    }
}

/// Running over two sequences, one after the other, is running over the
/// first and going on with the second.
pub proof fn lemma_run_concat(s: StpDecoder, a: Seq<u8>, b: Seq<u8>)
    ensures
        s.run(a + b) == (s.run(a).0.run(b).0, s.run(a).1 + s.run(a).0.run(b).1),
    decreases b.len(),
{
    if b.len() == 0 {
        assert(a + b =~= a);
        assert(s.run(a).1 + Seq::<PacketResult>::empty() =~= s.run(a).1);
    } else {
        lemma_run_concat(s, a, b.drop_last());
        assert((a + b).drop_last() =~= a + b.drop_last());
        assert((a + b).last() == b.last());
        let t = s.run(a).0;
        let u = t.run(b.drop_last());
        assert(s.run(a).1 + (u.1 + u.0.step(b.last()).1) =~= (s.run(a).1 + u.1) + u.0.step(
            b.last(),
        ).1);
    }
}

/// Whatever state the decoder is in, an ASYNC packet followed by a VERSION
/// packet leaves it between two packets, with the timestamp type and the
/// nibble order that the VERSION names and with nothing else left of the
/// state before but the offset; the two packets are what it reports last.
/// What it makes of the nibbles after them is therefore the same, offsets
/// apart, whatever came before.
pub proof fn lemma_resynchronizes(s: StpDecoder, v: u8, payload: u8)
    requires
        s.wf(),
        s.consumed() + ASYNC_F_COUNT + 7 <= usize::MAX,
        v < 16,
        version_ts_type(v) is Some,
        v & 0x8 != 0 ==> payload & 0x7F == 0x01,
    ensures
        ({
            let (t, events) = s.run(async_nibbles() + version_nibbles(v, payload));
            let is_le = v & 0x8 != 0 && payload & 0x80 == 0x80;
            let start = (s.consumed() + ASYNC_F_COUNT + 1) as usize;
            &&& ready(t, version_ts_type(v), is_le)
            &&& t.wf()
            &&& t.offset == s.consumed() + (async_nibbles() + version_nibbles(v, payload)).len()
            &&& events.len() >= 2
            &&& events[events.len() - 2] == Ok::<Packet, Error>(
                Packet {
                    packet: stp::Packet::Async,
                    start: (s.consumed() as usize),
                    span: (ASYNC_F_COUNT + 1) as usize,
                },
            )
            &&& events.last() == Ok::<Packet, Error>(
                Packet {
                    packet: stp::Packet::Version {
                        version: if v & 0x8 != 0 {
                            StpVersion::STPv2_2
                        } else if v == 0 {
                            StpVersion::STPv1
                        } else {
                            StpVersion::STPv2_1
                        },
                        ts_type: version_ts_type(v)->Some_0,
                        is_le,
                    },
                    start,
                    span: if v & 0x8 == 0 {
                        4usize
                    } else {
                        6usize
                    },
                },
            )
        }),
{
    lemma_async_resynchronizes(s);
    let t = s.run(async_nibbles()).0;
    lemma_version_after_async(t, v, payload);
    lemma_run_concat(s, async_nibbles(), version_nibbles(v, payload));
    let e1 = s.run(async_nibbles()).1;
    let e2 = t.run(version_nibbles(v, payload)).1;
    assert((e1 + e2)[e1.len() + e2.len() - 2] == e1.last());
    assert((e1 + e2).last() == e2[0]);
}

/// The nibbles of `bytes`: of each byte the low nibble, then the high one.
pub open spec fn nibbles_of(bytes: Seq<u8>) -> Seq<u8>
    decreases bytes.len(),
{
    if bytes.len() == 0 {
        Seq::empty()
    } else {
        nibbles_of(bytes.drop_last()).push(bytes.last() & 0xF).push(bytes.last() >> 4)
    }
}

/// Decoding bytes is decoding their nibbles.
pub proof fn lemma_run_bytes(s: StpDecoder, bytes: Seq<u8>)
    ensures
        s.run_bytes(bytes) == s.run(nibbles_of(bytes)),
    decreases bytes.len(),
{
    if bytes.len() > 0 {
        let front = nibbles_of(bytes.drop_last());
        let low = bytes.last() & 0xF;
        let high = bytes.last() >> 4;
        lemma_run_bytes(s, bytes.drop_last());
        lemma_run_push(s, front, low);
        lemma_run_push(s, front.push(low), high);
        let s1 = s.run(front);
        let s2 = s1.0.step(low);
        let s3 = s2.0.step(high);
        assert(s1.1 + s2.1 + s3.1 =~= (s1.1 + s2.1) + s3.1);
    }
}

} // verus!
