//! Hiding a byte payload in the least-significant bits of a flat buffer of
//! 8-bit pixel samples, and recovering it again.
//!
//! The buffer is treated as a stream of least-significant bits, one per byte.
//! Embedding writes the payload bits into that stream, least-significant bit
//! first within each payload byte, and then forces every remaining bit of the
//! stream to 1; a run of eight consecutive set bits is the sentinel that tells
//! extraction where the payload stops.
//!
//! The library never touches an image container: decoding a file into the
//! sample buffer and encoding it back belong to the caller.

use vstd::prelude::*;

pub mod codec;
pub mod config;
pub mod laws;
pub mod model;
