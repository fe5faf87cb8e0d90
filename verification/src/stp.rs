//! MIPI System Trace Protocol (STP) packet types.

use vstd::prelude::*;

verus! {

/// Protocol version announced by a VERSION packet.
#[allow(non_camel_case_types)]
#[derive(Debug, PartialEq, Eq, Copy, Clone)]
pub enum StpVersion {
    STPv1,
    /// Also covers STPv2.0.
    STPv2_1,
    STPv2_2,
}

/// STP packet opcodes.
#[allow(non_camel_case_types)]
#[derive(Debug, PartialEq, Eq, Copy, Clone)]
pub enum OpCode {
    NULL,
    M8,
    MERR,
    C8,
    D8,
    D16,
    D32,
    D64,
    D8MTS,
    D16MTS,
    D32MTS,
    D64MTS,
    D4,
    D4MTS,
    FLAG_TS,
    M16,
    GERR,
    C16,
    D8TS,
    D16TS,
    D32TS,
    D64TS,
    D8M,
    D16M,
    D32M,
    D64M,
    D4TS,
    D4M,
    FLAG,
    VERSION,
    NULL_TS,
    USER,
    USER_TS,
    FREQ,
    FREQ_TS,
    FREQ_40,
    FREQ_40_TS,
}

/// What kind of packet the payload of a data-carrying opcode ends up in.
pub enum PayloadKind {
    Master,
    Channel,
    Error,
    Data,
    Flag,
    Frequency,
}

impl OpCode {
    /// The opcode's encoding on the wire, its nibbles read most significant
    /// first.
    pub open spec fn code(self) -> u16 {
        match self {
            OpCode::NULL => 0x0,
            OpCode::M8 => 0x1,
            OpCode::MERR => 0x2,
            OpCode::C8 => 0x3,
            OpCode::D8 => 0x4,
            OpCode::D16 => 0x5,
            OpCode::D32 => 0x6,
            OpCode::D64 => 0x7,
            OpCode::D8MTS => 0x8,
            OpCode::D16MTS => 0x9,
            OpCode::D32MTS => 0xA,
            OpCode::D64MTS => 0xB,
            OpCode::D4 => 0xC,
            OpCode::D4MTS => 0xD,
            OpCode::FLAG_TS => 0xE,
            OpCode::M16 => 0xF1,
            OpCode::GERR => 0xF2,
            OpCode::C16 => 0xF3,
            OpCode::D8TS => 0xF4,
            OpCode::D16TS => 0xF5,
            OpCode::D32TS => 0xF6,
            OpCode::D64TS => 0xF7,
            OpCode::D8M => 0xF8,
            OpCode::D16M => 0xF9,
            OpCode::D32M => 0xFA,
            OpCode::D64M => 0xFB,
            OpCode::D4TS => 0xFC,
            OpCode::D4M => 0xFD,
            OpCode::FLAG => 0xFE,
            OpCode::VERSION => 0xF00,
            OpCode::NULL_TS => 0xF01,
            OpCode::USER => 0xF02,
            OpCode::USER_TS => 0xF03,
            OpCode::FREQ => 0xF08,
            OpCode::FREQ_TS => 0xF09,
            OpCode::FREQ_40 => 0xF0F0,
            OpCode::FREQ_40_TS => 0xF0F1,
        }
    }

    /// Number of nibbles the opcode takes on the wire.
    pub open spec fn code_len(self) -> nat {
        match self {
            OpCode::NULL
            | OpCode::M8
            | OpCode::MERR
            | OpCode::C8
            | OpCode::D8
            | OpCode::D16
            | OpCode::D32
            | OpCode::D64
            | OpCode::D8MTS
            | OpCode::D16MTS
            | OpCode::D32MTS
            | OpCode::D64MTS
            | OpCode::D4
            | OpCode::D4MTS
            | OpCode::FLAG_TS => 1,
            OpCode::VERSION
            | OpCode::NULL_TS
            | OpCode::USER
            | OpCode::USER_TS
            | OpCode::FREQ
            | OpCode::FREQ_TS => 3,
            OpCode::FREQ_40 | OpCode::FREQ_40_TS => 4,
            _ => 2,
        }
    }

    /// Where the payload of this opcode goes, or `None` for an opcode that
    /// the decoder does not treat as data-carrying.
    pub open spec fn payload_kind(self) -> Option<PayloadKind> {
        match self {
            OpCode::M8 | OpCode::M16 => Some(PayloadKind::Master),
            OpCode::MERR | OpCode::GERR => Some(PayloadKind::Error),
            OpCode::C8 | OpCode::C16 => Some(PayloadKind::Channel),
            OpCode::D4
            | OpCode::D4M
            | OpCode::D4TS
            | OpCode::D4MTS
            | OpCode::D8
            | OpCode::D8M
            | OpCode::D8TS
            | OpCode::D8MTS
            | OpCode::D16
            | OpCode::D16M
            | OpCode::D16TS
            | OpCode::D16MTS
            | OpCode::D32
            | OpCode::D32M
            | OpCode::D32TS
            | OpCode::D32MTS
            | OpCode::D64
            | OpCode::D64M
            | OpCode::D64TS
            | OpCode::D64MTS => Some(PayloadKind::Data),
            OpCode::FLAG_TS => Some(PayloadKind::Flag),
            OpCode::FREQ | OpCode::FREQ_TS | OpCode::FREQ_40 | OpCode::FREQ_40_TS => Some(
                PayloadKind::Frequency,
            ),
            _ => None,
        }
    }

    /// Number of payload nibbles that follow a data-carrying opcode.
    pub open spec fn payload_nibbles(self) -> nat {
        match self {
            OpCode::D4 | OpCode::D4M | OpCode::D4TS | OpCode::D4MTS => 1,
            OpCode::M8
            | OpCode::MERR
            | OpCode::GERR
            | OpCode::C8
            | OpCode::D8
            | OpCode::D8M
            | OpCode::D8TS
            | OpCode::D8MTS => 2,
            OpCode::M16
            | OpCode::C16
            | OpCode::D16
            | OpCode::D16M
            | OpCode::D16TS
            | OpCode::D16MTS => 4,
            OpCode::D32
            | OpCode::D32M
            | OpCode::D32TS
            | OpCode::D32MTS
            | OpCode::FREQ
            | OpCode::FREQ_TS => 8,
            OpCode::FREQ_40 | OpCode::FREQ_40_TS => 10,
            OpCode::D64 | OpCode::D64M | OpCode::D64TS | OpCode::D64MTS => 16,
            _ => 0,
        }
    }

    /// Whether a timestamp follows the payload of this opcode.
    pub open spec fn has_timestamp(self) -> bool {
        match self {
            OpCode::D4TS
            | OpCode::D4MTS
            | OpCode::D8TS
            | OpCode::D8MTS
            | OpCode::D16TS
            | OpCode::D16MTS
            | OpCode::D32TS
            | OpCode::D32MTS
            | OpCode::D64TS
            | OpCode::D64MTS
            | OpCode::FLAG_TS
            | OpCode::FREQ_TS
            | OpCode::FREQ_40_TS => true,
            _ => false,
        }
    }
}

/// Timestamp encoding selected by the most recent VERSION packet.
#[allow(non_camel_case_types)]
#[derive(Debug, PartialEq, Eq, Copy, Clone)]
pub enum TimestampType {
    STPv1LEGACY,
    STPv2NATDELTA,
    STPv2NAT,
    STPv2GRAY,
}

/// A decoded timestamp; `length` is its size on the wire in nibbles.
#[allow(non_camel_case_types)]
#[allow(inconsistent_fields)]
#[derive(Debug, PartialEq, Eq, Copy, Clone)]
pub enum Timestamp {
    STPv1 { value: u8 },
    STPv2NATDELTA { length: u8, value: u64 },
    STPv2NAT { length: u8, value: u64 },
    STPv2GRAY { length: u8, value: u64 },
}

/// A decoded STP packet.
#[allow(inconsistent_fields)]
#[derive(Debug, PartialEq, Eq, Copy, Clone)]
pub enum Packet {
    Async,
    Null { timestamp: Option<Timestamp> },
    Version { version: StpVersion, ts_type: TimestampType, is_le: bool },
    Master { opcode: OpCode, master: u16 },
    Channel { opcode: OpCode, channel: u16 },
    Error { opcode: OpCode, data: u8 },
    Data { opcode: OpCode, data: u64, timestamp: Option<Timestamp> },
    Flag { timestamp: Option<Timestamp> },
    Frequency { opcode: OpCode, frequency: u64, timestamp: Option<Timestamp> },
    User { length: u8, payload: u64, timestamp: Option<Timestamp> },
}

} // verus!
