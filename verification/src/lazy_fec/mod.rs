//! Collection of the slices of a frame in groups of shards, where the frame itself finds the
//! group whose missing shards are to be asked for.
use vstd::prelude::*;

pub mod frame;
pub mod group;
pub mod laws;
pub mod slice;

verus! {

/// How a group became complete.
#[derive(Debug, Clone, Copy, PartialEq, Eq, Structural)]
pub enum GroupRecovery {
    /// All data shards came.
    Direct,
    /// Parity shards stand in for so many data shards.
    Fec { missing_data_shards: u8 },
}

} // verus!
