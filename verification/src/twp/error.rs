//! TWP error type.

use vstd::prelude::*;

verus! {

/// An error found while parsing, or returned by a handler.
#[derive(Debug, PartialEq, Eq, Copy, Clone)]
pub struct Error {
    /// The type of error.
    pub kind: ErrorKind,
    /// The stream offset where the error was encountered.
    pub offset: usize,
}

/// The kinds of error.
#[derive(Debug, PartialEq, Eq, Copy, Clone)]
pub enum ErrorKind {
    /// An invalid stream ID was encountered.
    InvalidStreamId(u8),
    /// The frame's AUX byte is invalid.
    InvalidAuxByte(u8),
    /// The frame is less than sixteen bytes.
    PartialFrame(usize),
    /// Synchronization was lost and some number of the preceding frames may
    /// be invalid.
    InvalidFrames,
    /// The stream was terminated with a partial frame and/or sync packet.
    PartialLayer { frame_size: usize, ff_count: usize },
    /// The handler asked for parsing to stop.
    Stop,
}

} // verus!
