//! Parsing and building MIPI Trace Wrapper Protocol (TWP) streams.
//!
//! TWP combines several byte streams, each named by a stream ID, into one
//! stream of sixteen-byte frames.  It is compatible with the trace formatter
//! protocol of ARM CoreSight (TPIU frames).

pub mod builder;
pub mod error;
pub mod frame;
pub mod frame_parser;
pub mod layer_parser;
pub mod stream;
pub mod stream_builder;
