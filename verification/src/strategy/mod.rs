//! Parsing and encoding strategies built on the structural scan.

pub mod direct;
pub mod zero_copy;
pub mod two_phase;
pub mod parallel;
pub mod encode;
pub mod encoding;
pub mod general;
pub mod streaming;
pub mod general_streaming;
pub mod stream_agreement;
pub mod roundtrip;
pub mod dump_parse;
pub mod general_agreement;
