//! Decoders and encoders for the MIPI Trace Wrapper Protocol (TWP) and the
//! MIPI System Trace Protocol (STP).

pub mod frame_decoder;
pub mod handler;
pub mod nibble;
pub mod stp;
pub mod stp_decoder;
pub mod twp;
