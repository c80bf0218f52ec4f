//! A verified value model and wire codec for a RESP-style serialization
//! protocol: typed frames (strings, errors, integers, booleans, doubles,
//! nulls, arrays, maps, sets), a deterministic encoder from frames to bytes,
//! and a streaming-tolerant decoder from bytes back to frames.

pub mod bytes;
pub mod decode;
pub mod encode;
pub mod error;
pub mod frame;
pub mod grammar;
pub mod laws;
pub mod order;
