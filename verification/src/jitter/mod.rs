//! Buffers that even out the arrival times of packets.
use crate::packet::VideoPacket;
use vstd::prelude::*;

pub mod audio;
pub mod av;
pub mod laws;
pub mod video;

verus! {

/// How long packets are held, in milliseconds.
pub const JITTER_TARGET_MS: u64 = 10;

/// Most slices that are held.
pub const JITTER_MAX_FRAMES: usize = 64;

/// Least time between two releases, in microseconds.
pub const INTER_PACKET_GAP_US: u64 = 50;

/// What the event loop is woken up for.
#[derive(Debug, Clone, Copy, PartialEq, Eq, Structural)]
pub enum UserEvent {
    NewFrame,
}

/// What the decoding thread is told.
#[derive(Debug)]
pub enum VideoWorkerMsg {
    Push(VideoPacket),
    PollDecoder,
    Shutdown,
}

} // verus!
