//! Messages between the two sides beside the video datagrams.
use crate::packet::FrameTrace;
use bytes::Bytes;
use vstd::prelude::*;

verus! {

/// A group whose missing shards are asked for.
#[derive(Debug, Clone, Copy, PartialEq, Eq, Structural)]
pub struct NackEntry {
    pub slice_idx: u8,
    pub group_idx: u8,
    /// Bit `i` is set when shard `i` has been received. The shards whose bits are clear
    /// are to be sent again.
    pub received_mask: u64,
}

/// A control message.
#[derive(Debug)]
pub enum ControlPacket {
    Identify { model: String, os: String },
    StartStreaming,
    RequestKeyFrame,
    Ping { client_time_us: u64 },
    Pong { client_time_us: u64, server_time_us: u64 },
    OffsetUpdate { offset_us: i64, rtt_us: u64 },
    FrameFeedback { frame_id: u64, trace: FrameTrace },
    Communication { message: String },
    Nack { frame_id: u64, slice_idx: u8, group_idx: u8, received_mask: u64 },
    LostFrame,
    NackBatch { frame_id: u64, entries: Vec<NackEntry> },
    RecoveryStats { data: Bytes },
}

} // verus!
