//! Forward error correction over whole slices: the shards of a slice and their parity form
//! one code word, and whole frames come out.
use vstd::prelude::*;

pub mod assembler;
pub mod encode;
pub mod frame;
pub mod laws;
pub mod slice;

verus! {

/// How many frames before the newest one are waited for.
pub const MAX_BUFFERED_FRAMES: u64 = 8;

/// A frame that is not whole after this time is given up, in microseconds.
pub const STALE_FRAME_US: u64 = 100_000;

/// Least time between two requests for the same slice, in microseconds.
pub const NACK_SUPPRESS_US: u64 = 10_000;

} // verus!
