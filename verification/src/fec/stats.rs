//! Counters of what was received, recovered and lost.
use crate::fec::GroupRecovery;
use crate::packet::{ChunkModel, DatagramChunk};
use vstd::prelude::*;

verus! {

/// What happened since `window_start_us`.
#[derive(Debug, Clone, Copy, PartialEq, Eq, Structural)]
pub struct RecoveryStats {
    /// Zero until the first window has begun.
    pub window_start_us: u64,
    pub rx_bytes: u64,
    pub rx_chunks: u64,
    pub rx_data_chunks: u64,
    pub rx_parity_chunks: u64,
    /// Chunks of frames that were already released or given up.
    pub zombie_chunks: u64,
    /// Chunks that came because they had been asked for.
    pub nack_recovered_chunks: u64,
    pub nacks_sent: u64,
    pub frames_emitted: u64,
    pub video_packets_emitted: u64,
    pub frames_lost_evicted: u64,
    pub frames_lost_timeout: u64,
    pub frames_lost_out_of_window: u64,
    pub hol_skips: u64,
    pub partial: u64,
    pub direct_groups: u64,
    pub fec_groups: u64,
    pub fec_missing_data_shards: u64,
    pub fec_failed_groups: u64,
    pub wasted_payload_bytes: u64,
    pub total_lost_chunks: u64,
}

/// The counters of one window. The rates are ratios of them: bits per microsecond are
/// `8 * rx_bytes / elapsed_us`, frames per second `1_000_000 * frames_emitted / elapsed_us`,
/// the loss in percent `100 * lost / (rx_chunks + lost)`, or zero when there is nothing to
/// divide by.
#[derive(Debug, Clone, Copy, PartialEq, Eq, Structural)]
pub struct RecoveryReport {
    pub elapsed_us: u64,
    pub rx_bytes: u64,
    pub frames_emitted: u64,
    pub rx_chunks: u64,
    pub lost: u64,
    pub nack_sent: u64,
    pub nack_recovery: u64,
    pub partial_slices: u64,
    pub direct: u64,
    pub recovered: u64,
    pub failed: u64,
    pub evicted: u64,
    pub timeout: u64,
    pub oow: u64,
    pub hol: u64,
}

/// Counters that have counted nothing.
pub open spec fn no_stats() -> RecoveryStats {
    RecoveryStats {
        window_start_us: 0,
        rx_bytes: 0,
        rx_chunks: 0,
        rx_data_chunks: 0,
        rx_parity_chunks: 0,
        zombie_chunks: 0,
        nack_recovered_chunks: 0,
        nacks_sent: 0,
        frames_emitted: 0,
        video_packets_emitted: 0,
        frames_lost_evicted: 0,
        frames_lost_timeout: 0,
        frames_lost_out_of_window: 0,
        hol_skips: 0,
        partial: 0,
        direct_groups: 0,
        fec_groups: 0,
        fec_missing_data_shards: 0,
        fec_failed_groups: 0,
        wasted_payload_bytes: 0,
        total_lost_chunks: 0,
    }
}

impl Default for RecoveryStats {
    fn default() -> (r: RecoveryStats)
        ensures
            r == no_stats(),
    {
        RecoveryStats {
            window_start_us: 0,
            rx_bytes: 0,
            rx_chunks: 0,
            rx_data_chunks: 0,
            rx_parity_chunks: 0,
            zombie_chunks: 0,
            nack_recovered_chunks: 0,
            nacks_sent: 0,
            frames_emitted: 0,
            video_packets_emitted: 0,
            frames_lost_evicted: 0,
            frames_lost_timeout: 0,
            frames_lost_out_of_window: 0,
            hol_skips: 0,
            partial: 0,
            direct_groups: 0,
            fec_groups: 0,
            fec_missing_data_shards: 0,
            fec_failed_groups: 0,
            wasted_payload_bytes: 0,
            total_lost_chunks: 0,
        }
    }
}

impl RecoveryStats {
    /// Each counter can grow by `n`.
    pub open spec fn room(self, n: int) -> bool {
        &&& self.rx_bytes + n <= u64::MAX
        &&& self.rx_chunks + n <= u64::MAX
        &&& self.rx_data_chunks + n <= u64::MAX
        &&& self.rx_parity_chunks + n <= u64::MAX
        &&& self.zombie_chunks + n <= u64::MAX
        &&& self.nack_recovered_chunks + n <= u64::MAX
        &&& self.nacks_sent + n <= u64::MAX
        &&& self.frames_emitted + n <= u64::MAX
        &&& self.video_packets_emitted + n <= u64::MAX
        &&& self.frames_lost_evicted + n <= u64::MAX
        &&& self.frames_lost_timeout + n <= u64::MAX
        &&& self.frames_lost_out_of_window + n <= u64::MAX
        &&& self.hol_skips + n <= u64::MAX
        &&& self.partial + n <= u64::MAX
        &&& self.direct_groups + n <= u64::MAX
        &&& self.fec_groups + n <= u64::MAX
        &&& self.fec_missing_data_shards + n <= u64::MAX
        &&& self.fec_failed_groups + n <= u64::MAX
        &&& self.wasted_payload_bytes + n <= u64::MAX
        &&& self.total_lost_chunks + n <= u64::MAX
    }

    /// Whether each counter can grow by `n`.
    pub fn has_room(&self, n: u64) -> (r: bool)
        ensures
            r == self.room(n as int),
    {
        let most: u64 = u64::MAX - n;
        self.rx_bytes <= most && self.rx_chunks <= most && self.rx_data_chunks <= most
            && self.rx_parity_chunks <= most && self.zombie_chunks <= most
            && self.nack_recovered_chunks <= most && self.nacks_sent <= most
            && self.frames_emitted <= most && self.video_packets_emitted <= most
            && self.frames_lost_evicted <= most && self.frames_lost_timeout <= most
            && self.frames_lost_out_of_window <= most && self.hol_skips <= most && self.partial
            <= most && self.direct_groups <= most && self.fec_groups <= most
            && self.fec_missing_data_shards <= most && self.fec_failed_groups <= most
            && self.wasted_payload_bytes <= most && self.total_lost_chunks <= most
    }

    /// The counters after a chunk.
    pub open spec fn with_chunk(self, chunk: ChunkModel, was_nacked: bool, zombie: bool) -> RecoveryStats {
        let rx_bytes = (self.rx_bytes + chunk.payload_len) as u64;
        if zombie {
            RecoveryStats { rx_bytes, zombie_chunks: (self.zombie_chunks + 1) as u64, ..self }
        } else {
            let parity = chunk.shard_idx >= chunk.k;
            RecoveryStats {
                rx_bytes,
                rx_chunks: (self.rx_chunks + 1) as u64,
                nack_recovered_chunks: (self.nack_recovered_chunks + if was_nacked {
                    1int
                } else {
                    0int
                }) as u64,
                rx_parity_chunks: (self.rx_parity_chunks + if parity {
                    1int
                } else {
                    0int
                }) as u64,
                rx_data_chunks: (self.rx_data_chunks + if parity {
                    0int
                } else {
                    1int
                }) as u64,
                ..self
            }
        }
    }

    /// The counters that grow with a chunk can grow.
    pub open spec fn counts_chunk(self, chunk: ChunkModel, was_nacked: bool, zombie: bool) -> bool {
        &&& self.rx_bytes + chunk.payload_len <= u64::MAX
        &&& if zombie {
            self.zombie_chunks < u64::MAX
        } else {
            &&& self.rx_chunks < u64::MAX
            &&& was_nacked ==> self.nack_recovered_chunks < u64::MAX
            &&& if chunk.shard_idx >= chunk.k {
                self.rx_parity_chunks < u64::MAX
            } else {
                self.rx_data_chunks < u64::MAX
            }
        }
    }

    /// Counts a chunk. One of a frame that is no longer assembled counts by its bytes and
    /// as a zombie only.
    pub fn note_chunk(&mut self, chunk: &DatagramChunk, was_nacked: bool, zombie: bool)
        requires
            old(self).counts_chunk(chunk@, was_nacked, zombie),
        ensures
            *final(self) == old(self).with_chunk(chunk@, was_nacked, zombie),
    {
        self.rx_bytes = self.rx_bytes + chunk.payload_len as u64;
        if zombie {
            self.zombie_chunks = self.zombie_chunks + 1;
            return ;
        }
        self.rx_chunks = self.rx_chunks + 1;
        if was_nacked {
            self.nack_recovered_chunks = self.nack_recovered_chunks + 1;
        }
        if chunk.shard_idx >= chunk.k {
            self.rx_parity_chunks = self.rx_parity_chunks + 1;
        } else {
            self.rx_data_chunks = self.rx_data_chunks + 1;
        }
    }

    /// The counters after a frame left with `packets` packets.
    pub open spec fn with_frame_emitted(self, packets: int) -> RecoveryStats {
        RecoveryStats {
            frames_emitted: (self.frames_emitted + 1) as u64,
            video_packets_emitted: (self.video_packets_emitted + packets) as u64,
            ..self
        }
    }

    /// Counts a frame that left with `packets_count` packets.
    pub fn note_frame_emitted(&mut self, packets_count: usize)
        requires
            old(self).frames_emitted < u64::MAX,
            old(self).video_packets_emitted + packets_count <= u64::MAX,
        ensures
            *final(self) == old(self).with_frame_emitted(packets_count as int),
    {
        self.frames_emitted = self.frames_emitted + 1;
        self.video_packets_emitted = self.video_packets_emitted + packets_count as u64;
    }

    /// The counters after a request for missing shards.
    pub open spec fn with_nack(self) -> RecoveryStats {
        RecoveryStats { nacks_sent: (self.nacks_sent + 1) as u64, ..self }
    }

    pub fn note_nack(&mut self)
        requires
            old(self).nacks_sent < u64::MAX,
        ensures
            *final(self) == old(self).with_nack(),
    {
        self.nacks_sent = self.nacks_sent + 1;
    }

    /// The counters after the loss of a frame that had been evicted.
    pub open spec fn with_lost_evicted(self) -> RecoveryStats {
        RecoveryStats {
            frames_lost_evicted: (self.frames_lost_evicted + 1) as u64,
            hol_skips: (self.hol_skips + 1) as u64,
            ..self
        }
    }

    pub fn note_frame_lost_evicted(&mut self)
        requires
            old(self).frames_lost_evicted < u64::MAX,
            old(self).hol_skips < u64::MAX,
        ensures
            *final(self) == old(self).with_lost_evicted(),
    {
        self.frames_lost_evicted = self.frames_lost_evicted + 1;
        self.hol_skips = self.hol_skips + 1;
    }

    /// The counters after the loss of a frame that did not come in time.
    pub open spec fn with_lost_timeout(self) -> RecoveryStats {
        RecoveryStats {
            frames_lost_timeout: (self.frames_lost_timeout + 1) as u64,
            hol_skips: (self.hol_skips + 1) as u64,
            ..self
        }
    }

    pub fn note_frame_lost_timeout(&mut self)
        requires
            old(self).frames_lost_timeout < u64::MAX,
            old(self).hol_skips < u64::MAX,
        ensures
            *final(self) == old(self).with_lost_timeout(),
    {
        self.frames_lost_timeout = self.frames_lost_timeout + 1;
        self.hol_skips = self.hol_skips + 1;
    }

    /// The counters after the loss of a frame that fell out of the window.
    pub open spec fn with_lost_out_of_window(self) -> RecoveryStats {
        RecoveryStats {
            frames_lost_out_of_window: (self.frames_lost_out_of_window + 1) as u64,
            hol_skips: (self.hol_skips + 1) as u64,
            ..self
        }
    }

    pub fn note_frame_lost_out_of_window(&mut self)
        requires
            old(self).frames_lost_out_of_window < u64::MAX,
            old(self).hol_skips < u64::MAX,
        ensures
            *final(self) == old(self).with_lost_out_of_window(),
    {
        self.frames_lost_out_of_window = self.frames_lost_out_of_window + 1;
        self.hol_skips = self.hol_skips + 1;
    }

    /// The counters after a frame was released with slices missing.
    pub open spec fn with_partial(self) -> RecoveryStats {
        RecoveryStats { partial: (self.partial + 1) as u64, ..self }
    }

    pub fn note_partial_slicing(&mut self)
        requires
            old(self).partial < u64::MAX,
        ensures
            *final(self) == old(self).with_partial(),
    {
        self.partial = self.partial + 1;
    }

    /// The counters after a group became complete.
    pub open spec fn with_recovery(self, recovery: GroupRecovery) -> RecoveryStats {
        match recovery {
            GroupRecovery::Direct => RecoveryStats {
                direct_groups: (self.direct_groups + 1) as u64,
                ..self
            },
            GroupRecovery::Fec { missing_data_shards, via_parity } => RecoveryStats {
                fec_missing_data_shards: (self.fec_missing_data_shards
                    + missing_data_shards) as u64,
                total_lost_chunks: (self.total_lost_chunks + missing_data_shards) as u64,
                fec_groups: (self.fec_groups + 1) as u64,
                ..self
            },
        }
    }

    /// The counters that grow with a complete group can grow.
    pub open spec fn counts_recovery(self, recovery: GroupRecovery) -> bool {
        match recovery {
            GroupRecovery::Direct => self.direct_groups < u64::MAX,
            GroupRecovery::Fec { missing_data_shards, via_parity } => {
                &&& self.fec_missing_data_shards + missing_data_shards <= u64::MAX
                &&& self.total_lost_chunks + missing_data_shards <= u64::MAX
                &&& self.fec_groups < u64::MAX
            },
        }
    }

    /// Counts a group that became complete.
    pub fn note_group_recovery(&mut self, recovery: GroupRecovery)
        requires
            old(self).counts_recovery(recovery),
        ensures
            *final(self) == old(self).with_recovery(recovery),
    {
        match recovery {
            GroupRecovery::Direct => {
                self.direct_groups = self.direct_groups + 1;
            },
            GroupRecovery::Fec { missing_data_shards, via_parity: _ } => {
                self.fec_missing_data_shards = self.fec_missing_data_shards
                    + missing_data_shards as u64;
                self.total_lost_chunks = self.total_lost_chunks + missing_data_shards as u64;
                self.fec_groups = self.fec_groups + 1;
            },
        }
    }

    /// The counters after a frame was given up.
    pub open spec fn with_wasted(self, failed_groups: int, wasted_bytes: int, lost_chunks: int) -> RecoveryStats {
        RecoveryStats {
            fec_failed_groups: (self.fec_failed_groups + failed_groups) as u64,
            wasted_payload_bytes: (self.wasted_payload_bytes + wasted_bytes) as u64,
            total_lost_chunks: (self.total_lost_chunks + lost_chunks) as u64,
            ..self
        }
    }

    /// Counts what was lost with a frame that was given up.
    pub fn note_wasted(&mut self, failed_groups: u64, wasted_bytes: u64, lost_chunks: u64)
        requires
            old(self).fec_failed_groups + failed_groups <= u64::MAX,
            old(self).wasted_payload_bytes + wasted_bytes <= u64::MAX,
            old(self).total_lost_chunks + lost_chunks <= u64::MAX,
        ensures
            *final(self) == old(self).with_wasted(
                failed_groups as int,
                wasted_bytes as int,
                lost_chunks as int,
            ),
    {
        self.fec_failed_groups = self.fec_failed_groups + failed_groups;
        self.wasted_payload_bytes = self.wasted_payload_bytes + wasted_bytes;
        self.total_lost_chunks = self.total_lost_chunks + lost_chunks;
    }

    /// A window of `every_us` is over at `now_us`.
    pub open spec fn is_due(self, now_us: u64, every_us: u64) -> bool {
        self.window_start_us != 0 && (if now_us < self.window_start_us {
            0
        } else {
            now_us - self.window_start_us
        }) >= every_us
    }

    /// The number of losses in the window.
    pub open spec fn lost(self) -> int {
        self.total_lost_chunks + self.frames_lost_evicted + self.frames_lost_out_of_window
            + self.frames_lost_timeout
    }

    /// The report on the window that ends at `now_us`.
    pub open spec fn report(self, now_us: u64) -> RecoveryReport {
        RecoveryReport {
            elapsed_us: if now_us < self.window_start_us {
                0
            } else {
                (now_us - self.window_start_us) as u64
            },
            rx_bytes: self.rx_bytes,
            frames_emitted: self.frames_emitted,
            rx_chunks: self.rx_chunks,
            lost: self.lost() as u64,
            nack_sent: self.nacks_sent,
            nack_recovery: self.nack_recovered_chunks,
            partial_slices: self.partial,
            direct: self.direct_groups,
            recovered: self.fec_groups,
            failed: self.fec_failed_groups,
            evicted: self.frames_lost_evicted,
            timeout: self.frames_lost_timeout,
            oow: self.frames_lost_out_of_window,
            hol: self.hol_skips,
        }
    }

    /// The counters after the question whether a window is over.
    pub open spec fn after_log(self, now_us: u64, every_us: u64) -> RecoveryStats {
        if self.window_start_us == 0 {
            RecoveryStats { window_start_us: now_us, ..self }
        } else if self.is_due(now_us, every_us) {
            RecoveryStats { window_start_us: now_us, ..no_stats() }
        } else {
            self
        }
    }

    /// Begins the first window, or ends one that is over: then the report on it is
    /// returned and the counters start again from zero.
    pub fn maybe_log(&mut self, now_us: u64, every_us: u64) -> (r: Option<RecoveryReport>)
        requires
            old(self).lost() <= u64::MAX,
            old(self).rx_chunks + old(self).lost() <= u64::MAX,
        ensures
            *final(self) == old(self).after_log(now_us, every_us),
            r == (if old(self).is_due(now_us, every_us) {
                Some(old(self).report(now_us))
            } else {
                None
            }),
    {
        if self.window_start_us == 0 {
            self.window_start_us = now_us;
            return None;
        }
        let elapsed_us: u64 = now_us.saturating_sub(self.window_start_us);
        if elapsed_us < every_us {
            return None;
        }
        let lost: u64 = self.total_lost_chunks + self.frames_lost_evicted
            + self.frames_lost_out_of_window + self.frames_lost_timeout;
        let report = RecoveryReport {
            elapsed_us,
            rx_bytes: self.rx_bytes,
            frames_emitted: self.frames_emitted,
            rx_chunks: self.rx_chunks,
            lost,
            nack_sent: self.nacks_sent,
            nack_recovery: self.nack_recovered_chunks,
            partial_slices: self.partial,
            direct: self.direct_groups,
            recovered: self.fec_groups,
            failed: self.fec_failed_groups,
            evicted: self.frames_lost_evicted,
            timeout: self.frames_lost_timeout,
            oow: self.frames_lost_out_of_window,
            hol: self.hol_skips,
        };
        *self = RecoveryStats::default();
        self.window_start_us = now_us;
        Some(report)
    }
}

} // verus!
