//! Forward error correction: shards and parity on the sending side, recovery and
//! in-order assembly on the receiving side.
use vstd::prelude::*;

pub mod assembler;
pub mod assembly_log;
pub mod assembly_laws;
pub mod codec;
pub mod decode;
pub mod decode_task;
pub mod delivery_laws;
pub mod encode;
pub mod frame_builder;
pub mod group_builder;
pub mod group_laws;
pub mod laws;
pub mod log_laws;
pub mod nack_laws;
pub mod outcome_laws;
pub mod recovery_laws;
pub mod sending_laws;
pub mod slice_builder;
pub mod slice_wire;
pub mod stats;
pub mod stats_laws;

verus! {

/// Least time between two requests for the same group, in microseconds.
pub const NACK_SUPPRESS_US: u64 = 8_000;

/// How long a group must have been stalled before its missing shards are asked for, in
/// microseconds: they may still be on their way.
pub const MIN_NACK_AGE_US: u64 = 5_000;

/// The length of a shard that has not come: no header has told it, so all of it counts.
pub const UNKNOWN_LEN: u16 = 0xffff;

/// How a group became complete.
#[derive(Debug, Clone, Copy, PartialEq, Eq, Structural)]
pub enum GroupRecovery {
    /// All data shards arrived.
    Direct,
    /// Parity shards stand in for missing data shards.
    Fec { missing_data_shards: u8, via_parity: bool },
}

} // verus!
