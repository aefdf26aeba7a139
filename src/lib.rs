//! A file-level forward-error-correction codec: a byte stream is cut into
//! fixed-size chunks, each chunk gets a Reed-Solomon parity block, and a
//! damaged primary stream can later be repaired chunk by chunk from its parity
//! stream.
use vstd::prelude::*;

pub mod chunk;
pub mod engine;
pub mod pipeline;
pub mod salvage;

verus! {

} // verus!
