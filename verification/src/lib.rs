//! Sentinel framing for LMCP messages on a raw byte stream.
//!
//! A payload travels between four fixed eight-byte sentinels, together with
//! its length and an additive checksum, both written in decimal:
//!
//! ```text
//! +=+=+=+= <length> #@#@#@#@ <payload> !%!%!%!% <checksum> ?^?^?^?^
//! ```
//!
//! [`LmcpSentinelizer::create_sentinelized_stream`] builds such a frame and
//! [`LmcpSentinelizer::parse_sentinelized_stream`] reads the one frame at the
//! front of a buffer. Both work on a complete buffer in memory and keep no
//! state between calls.
//!
//! What the two compute is defined in [`wire`] over byte sequences, with the
//! decimal notation of [`decimal`]. [`laws`] proves how the two directions
//! relate: a frame is read back as the payload it was built from, a frame
//! that was cut short or whose sentinels were touched is refused, and
//! nothing but a well-formed frame is accepted.

pub mod decimal;
pub mod error;
pub mod laws;
pub mod sentinelizer;
pub mod wire;

pub use error::Error;
pub use sentinelizer::LmcpSentinelizer;
